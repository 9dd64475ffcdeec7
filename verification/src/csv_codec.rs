//! The flat-file format itself: one header line naming the categories, then
//! one line per tracked date, comma-delimited, dates as `YYYY-MM-DD`, flags
//! as `x` or an empty cell.
//!
//! [`file_bytes`] is the byte-exact specification of the format;
//! [`serialize_csv_diary`] produces exactly those bytes, and
//! [`parse_csv_diary`] recovers the diary: its contract states that parsing
//! any well-formed diary's serialization succeeds and yields an identical
//! header and date-to-flags mapping (the round-trip law).
use vstd::prelude::*;

use crate::csv_datafile::{valid_name, DayRow, DiaryDataCsv};
use crate::datafile::{bytes_to_string, DataError};
use crate::date::{day_number, days_in_month_exec, valid_ymd, ymd_of, Date};

verus! {

/// The byte of a decimal digit.
pub open spec fn digit_byte(n: int) -> u8 {
    (48 + n) as u8
}

/// A four-digit year, zero padded.
pub open spec fn year_bytes(y: int) -> Seq<u8> {
    seq![
        digit_byte(y / 1000),
        digit_byte((y / 100) % 10),
        digit_byte((y / 10) % 10),
        digit_byte(y % 10),
    ]
}

/// A two-digit month or day, zero padded.
pub open spec fn two_digit_bytes(n: int) -> Seq<u8> {
    seq![digit_byte(n / 10), digit_byte(n % 10)]
}

/// The ten bytes `YYYY-MM-DD` of a day number.
pub open spec fn date_cell(day: int) -> Seq<u8> {
    let t = ymd_of(day);
    year_bytes(t.0) + seq![45u8] + two_digit_bytes(t.1) + seq![45u8] + two_digit_bytes(t.2)
}

/// The flag cells of one line: a delimiter, then `x` or nothing, per flag.
pub open spec fn bool_cells(v: Seq<bool>) -> Seq<u8>
    decreases v.len(),
{
    if v.len() == 0 {
        Seq::empty()
    } else {
        seq![44u8] + (if v.first() {
            seq![120u8]
        } else {
            Seq::<u8>::empty()
        }) + bool_cells(v.drop_first())
    }
}

/// The header cells: a delimiter, then the name's UTF-8 bytes, per category.
pub open spec fn header_cells(h: Seq<Seq<char>>) -> Seq<u8>
    decreases h.len(),
{
    if h.len() == 0 {
        Seq::empty()
    } else {
        seq![44u8] + vstd::utf8::encode_utf8(h.first()) + header_cells(h.drop_first())
    }
}

/// The header line: the word `date`, the category cells, a line feed.
pub open spec fn header_line(h: Seq<Seq<char>>) -> Seq<u8> {
    seq![100u8, 97u8, 116u8, 101u8] + header_cells(h) + seq![10u8]
}

/// One data line: the date, the flag cells, a line feed.
pub open spec fn row_line(day: int, v: Seq<bool>) -> Seq<u8> {
    date_cell(day) + bool_cells(v) + seq![10u8]
}

/// All data lines, in row order.
pub open spec fn rows_lines(rows: Seq<DayRow>) -> Seq<u8>
    decreases rows.len(),
{
    if rows.len() == 0 {
        Seq::empty()
    } else {
        row_line(rows.first().date@, rows.first().values@) + rows_lines(rows.drop_first())
    }
}

/// The names of the header as character sequences.
pub open spec fn header_views(h: Seq<String>) -> Seq<Seq<char>> {
    h.map_values(|s: String| s@)
}

/// The complete flat-file image of a diary.
pub open spec fn file_bytes(d: DiaryDataCsv) -> Seq<u8> {
    header_line(header_views(d.header@)) + rows_lines(d.rows@)
}

proof fn lemma_header_cells_push(h: Seq<Seq<char>>, x: Seq<char>)
    ensures
        header_cells(h.push(x)) == header_cells(h) + seq![44u8] + vstd::utf8::encode_utf8(x),
    decreases h.len(),
{
    if h.len() == 0 {
        assert(h.push(x).first() == x);
        assert(h.push(x).drop_first() =~= Seq::<Seq<char>>::empty());
        assert(header_cells(Seq::<Seq<char>>::empty()) =~= Seq::<u8>::empty());
        assert(h =~= Seq::<Seq<char>>::empty());
        assert(header_cells(h.push(x)) =~= header_cells(h) + seq![44u8]
            + vstd::utf8::encode_utf8(x));
    } else {
        assert(h.push(x).first() == h.first());
        assert(h.push(x).drop_first() =~= h.drop_first().push(x));
        lemma_header_cells_push(h.drop_first(), x);
        assert(header_cells(h.push(x)) =~= header_cells(h) + seq![44u8]
            + vstd::utf8::encode_utf8(x));
    }
}

proof fn lemma_bool_cells_push(v: Seq<bool>, x: bool)
    ensures
        bool_cells(v.push(x)) == bool_cells(v) + seq![44u8] + (if x {
            seq![120u8]
        } else {
            Seq::<u8>::empty()
        }),
    decreases v.len(),
{
    if v.len() == 0 {
        assert(v.push(x).first() == x);
        assert(v.push(x).drop_first() =~= Seq::<bool>::empty());
        assert(bool_cells(Seq::<bool>::empty()) =~= Seq::<u8>::empty());
        assert(v =~= Seq::<bool>::empty());
        assert(bool_cells(v.push(x)) =~= bool_cells(v) + seq![44u8] + (if x {
            seq![120u8]
        } else {
            Seq::<u8>::empty()
        }));
    } else {
        assert(v.push(x).first() == v.first());
        assert(v.push(x).drop_first() =~= v.drop_first().push(x));
        lemma_bool_cells_push(v.drop_first(), x);
        assert(bool_cells(v.push(x)) =~= bool_cells(v) + seq![44u8] + (if x {
            seq![120u8]
        } else {
            Seq::<u8>::empty()
        }));
    }
}

proof fn lemma_rows_lines_push(rows: Seq<DayRow>, x: DayRow)
    ensures
        rows_lines(rows.push(x)) == rows_lines(rows) + row_line(x.date@, x.values@),
    decreases rows.len(),
{
    if rows.len() == 0 {
        assert(rows.push(x).first() == x);
        assert(rows.push(x).drop_first() =~= Seq::<DayRow>::empty());
        assert(rows_lines(Seq::<DayRow>::empty()) =~= Seq::<u8>::empty());
        assert(rows =~= Seq::<DayRow>::empty());
        assert(rows_lines(rows.push(x)) =~= rows_lines(rows) + row_line(x.date@, x.values@));
    } else {
        assert(rows.push(x).first() == rows.first());
        assert(rows.push(x).drop_first() =~= rows.drop_first().push(x));
        lemma_rows_lines_push(rows.drop_first(), x);
        assert(rows_lines(rows.push(x)) =~= rows_lines(rows) + row_line(x.date@, x.values@));
    }
}

/// Appends the UTF-8 bytes of a string.
fn push_str_bytes(out: &mut Vec<u8>, s: &String)
    ensures
        final(out)@ == old(out)@ + vstd::utf8::encode_utf8(s@),
{
    let b = s.as_str().as_bytes();
    let mut i: usize = 0;
    while i < b.len()
        invariant
            0 <= i <= b@.len(),
            b@ == vstd::utf8::encode_utf8(s@),
            out@ == old(out)@ + b@.take(i as int),
        decreases b@.len() - i,
    {
        out.push(b[i]);
        proof {
            assert(old(out)@ + b@.take(i as int + 1) =~= (old(out)@ + b@.take(i as int)).push(
                b@[i as int],
            ));
        }
        i = i + 1;
    }
    proof {
        assert(b@.take(b@.len() as int) =~= b@);
    }
}

/// Appends the ten bytes of a date.
fn push_date_bytes(out: &mut Vec<u8>, date: Date)
    requires
        date.valid(),
    ensures
        final(out)@ == old(out)@ + date_cell(date@),
{
    let (y, m, d) = date.ymd();
    proof {
        crate::date::lemma_ymd_of_day_number(y as int, m as int, d as int);
    }
    out.push(48 + (y / 1000) as u8);
    out.push(48 + ((y / 100) % 10) as u8);
    out.push(48 + ((y / 10) % 10) as u8);
    out.push(48 + (y % 10) as u8);
    out.push(45);
    out.push(48 + (m / 10) as u8);
    out.push(48 + (m % 10) as u8);
    out.push(45);
    out.push(48 + (d / 10) as u8);
    out.push(48 + (d % 10) as u8);
    proof {
        assert(out@ =~= old(out)@ + date_cell(date@));
    }
}

/// Serializes a diary to its flat-file image: exactly [`file_bytes`].
pub fn serialize_csv_diary(diary: &DiaryDataCsv) -> (r: Vec<u8>)
    requires
        diary.wf(),
    ensures
        r@ == file_bytes(*diary),
{
    let mut out: Vec<u8> = Vec::new();
    out.push(100);
    out.push(97);
    out.push(116);
    out.push(101);
    let ghost hv = header_views(diary.header@);
    proof {
        assert(hv.take(0) =~= Seq::<Seq<char>>::empty());
        assert(out@ =~= seq![100u8, 97u8, 116u8, 101u8] + header_cells(hv.take(0)));
    }
    let mut i: usize = 0;
    while i < diary.header.len()
        invariant
            diary.wf(),
            0 <= i <= diary.header@.len(),
            hv == header_views(diary.header@),
            out@ == seq![100u8, 97u8, 116u8, 101u8] + header_cells(hv.take(i as int)),
        decreases diary.header@.len() - i,
    {
        out.push(44);
        push_str_bytes(&mut out, &diary.header[i]);
        proof {
            assert(hv.take(i as int + 1) =~= hv.take(i as int).push(diary.header@[i as int]@));
            lemma_header_cells_push(hv.take(i as int), diary.header@[i as int]@);
            assert(out@ =~= seq![100u8, 97u8, 116u8, 101u8] + header_cells(hv.take(i as int + 1)));
        }
        i = i + 1;
    }
    out.push(10);
    proof {
        assert(hv.take(diary.header@.len() as int) =~= hv);
        assert(out@ =~= header_line(hv) + rows_lines(diary.rows@.take(0)));
    }
    let mut k: usize = 0;
    while k < diary.rows.len()
        invariant
            diary.wf(),
            0 <= k <= diary.rows@.len(),
            hv == header_views(diary.header@),
            out@ == header_line(hv) + rows_lines(diary.rows@.take(k as int)),
        decreases diary.rows@.len() - k,
    {
        let row = &diary.rows[k];
        push_date_bytes(&mut out, row.date);
        let ghost mid = out@;
        let mut j: usize = 0;
        while j < row.values.len()
            invariant
                0 <= j <= row.values@.len(),
                out@ == mid + bool_cells(row.values@.take(j as int)),
            decreases row.values@.len() - j,
        {
            out.push(44);
            if row.values[j] {
                out.push(120);
            }
            proof {
                assert(row.values@.take(j as int + 1) =~= row.values@.take(j as int).push(
                    row.values@[j as int],
                ));
                lemma_bool_cells_push(row.values@.take(j as int), row.values@[j as int]);
                assert(out@ =~= mid + bool_cells(row.values@.take(j as int + 1)));
            }
            j = j + 1;
        }
        out.push(10);
        proof {
            assert(row.values@.take(row.values@.len() as int) =~= row.values@);
            assert(diary.rows@.take(k as int + 1) =~= diary.rows@.take(k as int).push(
                diary.rows@[k as int],
            ));
            lemma_rows_lines_push(diary.rows@.take(k as int), diary.rows@[k as int]);
            assert(out@ =~= header_line(hv) + rows_lines(diary.rows@.take(k as int + 1)));
        }
        k = k + 1;
    }
    proof {
        assert(diary.rows@.take(diary.rows@.len() as int) =~= diary.rows@);
    }
    out
}

} // verus!

verus! {

/// A byte that separates cells or ends a line.
pub open spec fn is_stop_byte(b: u8) -> bool {
    b == 44u8 || b == 10u8
}

/// Copies `input[start..end)`.
fn copy_range(input: &Vec<u8>, start: usize, end: usize) -> (r: Vec<u8>)
    requires
        start <= end <= input@.len(),
    ensures
        r@ == input@.subrange(start as int, end as int),
{
    let mut r: Vec<u8> = Vec::new();
    let mut i: usize = start;
    while i < end
        invariant
            start <= i <= end <= input@.len(),
            r@ == input@.subrange(start as int, i as int),
        decreases end - i,
    {
        r.push(input[i]);
        proof {
            assert(input@.subrange(start as int, i as int + 1) =~= input@.subrange(
                start as int,
                i as int,
            ).push(input@[i as int]));
        }
        i = i + 1;
    }
    r
}

/// The end of the cell starting at `start`: the first stop byte at or after it.
fn scan_cell(input: &Vec<u8>, start: usize) -> (end: usize)
    requires
        start <= input@.len(),
    ensures
        start <= end <= input@.len(),
        forall|j: int| start <= j < end ==> !is_stop_byte(#[trigger] input@[j]),
        end < input@.len() ==> is_stop_byte(input@[end as int]),
{
    let mut end = start;
    while end < input.len()
        invariant
            start <= end <= input@.len(),
            forall|j: int| start <= j < end ==> !is_stop_byte(#[trigger] input@[j]),
        decreases input@.len() - end,
    {
        let b = input[end];
        if b == 44 || b == 10 {
            return end;
        }
        end = end + 1;
    }
    end
}

/// Splitting off a known prefix of a suffix of `s`.
proof fn lemma_skip_split(s: Seq<u8>, p: int, a: Seq<u8>, b: Seq<u8>)
    requires
        0 <= p <= s.len(),
        s.skip(p) == a + b,
    ensures
        s.skip(p + a.len()) =~= b,
        forall|j: int| 0 <= j < a.len() ==> s[p + j] == a[j],
{
    assert(s.skip(p).len() == s.len() - p);
    assert(s.skip(p).len() == a.len() + b.len());
    assert forall|j: int| 0 <= j < a.len() implies s[p + j] == a[j] by {
        assert(s.skip(p)[j] == s[j + p]);
        assert((a + b)[j] == a[j]);
    }
    assert(0 <= p + a.len() <= s.len());
    assert forall|j: int| 0 <= j < b.len() implies s[p + a.len() + j] == b[j] by {
        assert(s.skip(p)[a.len() + j] == s[a.len() + j + p]);
        assert((a + b)[a.len() + j] == b[j]);
    }
    assert(s.skip(p + a.len()).len() == b.len());
    assert forall|j: int| 0 <= j < b.len() implies s.skip(p + a.len())[j] == b[j] by {
        assert(s.skip(p + a.len())[j] == s[j + (p + a.len())]);
    }
}

/// A four-digit decimal number is recovered from its digits.
proof fn lemma_four_digits(n: int)
    requires
        0 <= n <= 9999,
    ensures
        (n / 1000) * 1000 + ((n / 100) % 10) * 100 + ((n / 10) % 10) * 10 + n % 10 == n,
        0 <= n / 1000 <= 9,
        0 <= (n / 100) % 10 <= 9,
        0 <= (n / 10) % 10 <= 9,
        0 <= n % 10 <= 9,
{
    assert((n / 1000) * 1000 + ((n / 100) % 10) * 100 + ((n / 10) % 10) * 10 + n % 10 == n
        && 0 <= n / 1000 <= 9) by (nonlinear_arith)
        requires
            0 <= n <= 9999,
    ;
}

/// A two-digit decimal number is recovered from its digits.
proof fn lemma_two_digits(n: int)
    requires
        0 <= n <= 99,
    ensures
        (n / 10) * 10 + n % 10 == n,
        0 <= n / 10 <= 9,
        0 <= n % 10 <= 9,
{
    assert((n / 10) * 10 + n % 10 == n && 0 <= n / 10 <= 9) by (nonlinear_arith)
        requires
            0 <= n <= 99,
    ;
}

/// Reads the ten bytes `YYYY-MM-DD` at `pos`. Exactly the well-formed cells
/// of valid dates are accepted, and the accepted date is the written one.
#[verifier::rlimit(100)]
fn parse_date_at(input: &Vec<u8>, pos: usize) -> (r: Option<Date>)
    requires
        pos <= input@.len(),
    ensures
        r is Some ==> pos + 10 <= input@.len() && r.unwrap().valid()
            && input@.subrange(pos as int, pos as int + 10) == date_cell(r.unwrap()@),
        forall|day: int|
            0 <= day < crate::date::day_count() && pos + 10 <= input@.len()
                && input@.subrange(pos as int, pos as int + 10) == date_cell(day) ==> r is Some
                && r.unwrap()@ == day,
{
    proof {
        crate::date::lemma_days_before_year_bounds(10000);
    }
    if input.len() - pos < 10 {
        proof {
            assert forall|day: int|
                0 <= day < crate::date::day_count() && pos + 10 <= input@.len()
                    && input@.subrange(pos as int, pos as int + 10) == date_cell(day) implies false
            by {}
        }
        return None;
    }
    let b0 = input[pos];
    let b1 = input[pos + 1];
    let b2 = input[pos + 2];
    let b3 = input[pos + 3];
    let b4 = input[pos + 4];
    let b5 = input[pos + 5];
    let b6 = input[pos + 6];
    let b7 = input[pos + 7];
    let b8 = input[pos + 8];
    let b9 = input[pos + 9];
    let digits_ok = b0 >= 48 && b0 <= 57 && b1 >= 48 && b1 <= 57 && b2 >= 48 && b2 <= 57 && b3
        >= 48 && b3 <= 57 && b4 == 45 && b5 >= 48 && b5 <= 57 && b6 >= 48 && b6 <= 57 && b7 == 45
        && b8 >= 48 && b8 <= 57 && b9 >= 48 && b9 <= 57;
    proof {
        assert forall|day: int|
            0 <= day < crate::date::day_count() && input@.subrange(pos as int, pos as int + 10)
                == date_cell(day) implies digits_ok by {
            crate::date::lemma_ymd_of_valid(day);
            let t = crate::date::ymd_of(day);
            lemma_four_digits(t.0);
            lemma_two_digits(t.1);
            lemma_two_digits(t.2);
            assert(input@.subrange(pos as int, pos as int + 10)[0] == b0);
            assert(input@.subrange(pos as int, pos as int + 10)[1] == b1);
            assert(input@.subrange(pos as int, pos as int + 10)[2] == b2);
            assert(input@.subrange(pos as int, pos as int + 10)[3] == b3);
            assert(input@.subrange(pos as int, pos as int + 10)[4] == b4);
            assert(input@.subrange(pos as int, pos as int + 10)[5] == b5);
            assert(input@.subrange(pos as int, pos as int + 10)[6] == b6);
            assert(input@.subrange(pos as int, pos as int + 10)[7] == b7);
            assert(input@.subrange(pos as int, pos as int + 10)[8] == b8);
            assert(input@.subrange(pos as int, pos as int + 10)[9] == b9);
        }
    }
    if !digits_ok {
        return None;
    }
    let y: u32 = (b0 - 48) as u32 * 1000 + (b1 - 48) as u32 * 100 + (b2 - 48) as u32 * 10 + (b3
        - 48) as u32;
    let m: u32 = (b5 - 48) as u32 * 10 + (b6 - 48) as u32;
    let d: u32 = (b8 - 48) as u32 * 10 + (b9 - 48) as u32;
    if y < 1 || m < 1 || m > 12 || d < 1 || d > days_in_month_exec(y, m) {
        proof {
            assert forall|day: int|
                0 <= day < crate::date::day_count() && input@.subrange(
                    pos as int,
                    pos as int + 10,
                ) == date_cell(day) implies false by {
                crate::date::lemma_ymd_of_valid(day);
                let t = crate::date::ymd_of(day);
                lemma_four_digits(t.0);
                lemma_two_digits(t.1);
                lemma_two_digits(t.2);
                lemma_cell_digits(input@, pos as int, day);
                assert(y as int == t.0);
                assert(m as int == t.1);
                assert(d as int == t.2);
            }
        }
        return None;
    }
    let date = Date::from_ymd(y, m, d);
    proof {
        crate::date::lemma_ymd_of_day_number(y as int, m as int, d as int);
        lemma_four_digits(y as int);
        lemma_two_digits(m as int);
        lemma_two_digits(d as int);
        assert(input@.subrange(pos as int, pos as int + 10) =~= date_cell(date@));
        assert forall|day: int|
            0 <= day < crate::date::day_count() && input@.subrange(pos as int, pos as int + 10)
                == date_cell(day) implies date@ == day by {
            crate::date::lemma_ymd_of_valid(day);
            let t = crate::date::ymd_of(day);
            lemma_four_digits(t.0);
            lemma_two_digits(t.1);
            lemma_two_digits(t.2);
            lemma_cell_digits(input@, pos as int, day);
            assert(y as int == t.0);
            assert(m as int == t.1);
            assert(d as int == t.2);
        }
    }
    Some(date)
}

/// The bytes of a date cell pin the digits of its calendar triple.
proof fn lemma_cell_digits(s: Seq<u8>, pos: int, day: int)
    requires
        0 <= pos,
        pos + 10 <= s.len(),
        0 <= day < crate::date::day_count(),
        s.subrange(pos, pos + 10) == date_cell(day),
    ensures
        ({
            let t = crate::date::ymd_of(day);
            &&& s[pos] == digit_byte(t.0 / 1000)
            &&& s[pos + 1] == digit_byte((t.0 / 100) % 10)
            &&& s[pos + 2] == digit_byte((t.0 / 10) % 10)
            &&& s[pos + 3] == digit_byte(t.0 % 10)
            &&& s[pos + 5] == digit_byte(t.1 / 10)
            &&& s[pos + 6] == digit_byte(t.1 % 10)
            &&& s[pos + 8] == digit_byte(t.2 / 10)
            &&& s[pos + 9] == digit_byte(t.2 % 10)
        }),
{
    let c = s.subrange(pos, pos + 10);
    assert(c[0] == s[pos]);
    assert(c[1] == s[pos + 1]);
    assert(c[2] == s[pos + 2]);
    assert(c[3] == s[pos + 3]);
    assert(c[5] == s[pos + 5]);
    assert(c[6] == s[pos + 6]);
    assert(c[8] == s[pos + 8]);
    assert(c[9] == s[pos + 9]);
}

} // verus!

verus! {

/// What remains to parse while `i` header names have been read.
pub open spec fn rest_header(d: DiaryDataCsv, i: int) -> Seq<u8> {
    header_cells(header_views(d.header@).skip(i)) + seq![10u8] + rows_lines(d.rows@)
}

/// What remains to parse while `k` rows have been read.
pub open spec fn rest_rows(d: DiaryDataCsv, k: int) -> Seq<u8> {
    rows_lines(d.rows@.skip(k))
}

/// What remains to parse while `j` cells of row `k` have been read.
pub open spec fn rest_cells(d: DiaryDataCsv, k: int, j: int) -> Seq<u8> {
    bool_cells(d.rows@[k].values@.skip(j)) + seq![10u8] + rows_lines(d.rows@.skip(k + 1))
}

proof fn lemma_file_start(d: DiaryDataCsv, input: Seq<u8>)
    requires
        input == file_bytes(d),
    ensures
        input.len() >= 5,
        input[0] == 100u8 && input[1] == 97u8 && input[2] == 116u8 && input[3] == 101u8,
        input.skip(4) =~= rest_header(d, 0),
{
    let hv = header_views(d.header@);
    assert(hv.skip(0) =~= hv);
    assert(input =~= seq![100u8, 97u8, 116u8, 101u8] + rest_header(d, 0));
    assert(input.skip(0) =~= input);
    lemma_skip_split(input, 0, seq![100u8, 97u8, 116u8, 101u8], rest_header(d, 0));
}

proof fn lemma_rest_header_step(d: DiaryDataCsv, i: int)
    requires
        0 <= i < d.header@.len(),
    ensures
        rest_header(d, i) =~= seq![44u8] + vstd::utf8::encode_utf8(d.header@[i]@) + rest_header(
            d,
            i + 1,
        ),
{
    let hv = header_views(d.header@);
    assert(hv.skip(i).len() > 0);
    assert(hv.skip(i).first() == hv[i]);
    assert(hv[i] == d.header@[i]@);
    assert(hv.skip(i).drop_first() =~= hv.skip(i + 1));
}

proof fn lemma_rest_header_end(d: DiaryDataCsv)
    ensures
        rest_header(d, d.header@.len() as int) =~= seq![10u8] + rest_rows(d, 0),
{
    let hv = header_views(d.header@);
    assert(hv.skip(hv.len() as int) =~= Seq::<Seq<char>>::empty());
    assert(header_cells(Seq::<Seq<char>>::empty()) =~= Seq::<u8>::empty());
    assert(d.rows@.skip(0) =~= d.rows@);
}

proof fn lemma_rest_rows_step(d: DiaryDataCsv, k: int)
    requires
        0 <= k < d.rows@.len(),
    ensures
        rest_rows(d, k) =~= date_cell(d.rows@[k].date@) + rest_cells(d, k, 0),
{
    assert(d.rows@.skip(k).len() > 0);
    assert(d.rows@.skip(k).first() == d.rows@[k]);
    assert(d.rows@.skip(k).drop_first() =~= d.rows@.skip(k + 1));
    assert(d.rows@[k].values@.skip(0) =~= d.rows@[k].values@);
}

proof fn lemma_rest_cells_step(d: DiaryDataCsv, k: int, j: int)
    requires
        0 <= k < d.rows@.len(),
        0 <= j < d.rows@[k].values@.len(),
    ensures
        rest_cells(d, k, j) =~= seq![44u8] + (if d.rows@[k].values@[j] {
            seq![120u8]
        } else {
            Seq::<u8>::empty()
        }) + rest_cells(d, k, j + 1),
{
    let v = d.rows@[k].values@;
    assert(v.skip(j).len() > 0);
    assert(v.skip(j).first() == v[j]);
    assert(v.skip(j).drop_first() =~= v.skip(j + 1));
}

proof fn lemma_rest_cells_end(d: DiaryDataCsv, k: int)
    requires
        0 <= k < d.rows@.len(),
    ensures
        rest_cells(d, k, d.rows@[k].values@.len() as int) =~= seq![10u8] + rest_rows(d, k + 1),
{
    let v = d.rows@[k].values@;
    assert(v.skip(v.len() as int) =~= Seq::<bool>::empty());
    assert(bool_cells(Seq::<bool>::empty()) =~= Seq::<u8>::empty());
}

proof fn lemma_rows_lines_len(s: Seq<DayRow>)
    ensures
        s.len() > 0 ==> rows_lines(s).len() >= 11,
        s.len() == 0 ==> rows_lines(s).len() == 0,
{
    if s.len() > 0 {
        assert(date_cell(s.first().date@).len() == 10);
    }
}

/// Whether the bytes hold a carriage return.
fn has_cr(v: &Vec<u8>) -> (r: bool)
    ensures
        r == exists|j: int| 0 <= j < v@.len() && v@[j] == 13u8,
{
    let mut i: usize = 0;
    while i < v.len()
        invariant
            0 <= i <= v@.len(),
            forall|j: int| 0 <= j < i ==> v@[j] != 13u8,
        decreases v@.len() - i,
    {
        if v[i] == 13 {
            return true;
        }
        i = i + 1;
    }
    false
}

} // verus!

verus! {

/// The one-based file line of data row `k`: the header is line 1.
fn line_no(k: usize) -> usize {
    if k >= usize::MAX - 2 {
        usize::MAX
    } else {
        k + 2
    }
}

/// Whether `input` is the flat-file image of the well-formed diary `d`.
pub open spec fn is_image(input: Seq<u8>, d: DiaryDataCsv) -> bool {
    d.wf() && input == file_bytes(d)
}


/// Reads the flag cells of one data line beginning at `start_pos`, up to but
/// not including its line feed.
#[verifier::rlimit(100)]
fn parse_row_cells(
    input: &Vec<u8>,
    start_pos: usize,
    width: usize,
    line: usize,
    date: Date,
    Ghost(k): Ghost<int>,
) -> (r: Result<(Vec<bool>, usize), DataError>)
    requires
        start_pos <= input@.len(),
        forall|d: DiaryDataCsv| #[trigger] is_image(input@, d) ==> 0 <= k < d.rows@.len()
            && input@.skip(start_pos as int) == rest_cells(d, k, 0) && d.header@.len() == width
            && date@ == d.rows@[k].date@,
    ensures
        r is Err ==> (r->Err_0 is BadDate || r->Err_0 is RowWidthMismatch),
        r is Ok ==> start_pos <= r.unwrap().1 <= input@.len(),
        r is Ok ==> r.unwrap().0@.len() == width,
        forall|d: DiaryDataCsv| #[trigger] is_image(input@, d) ==> r is Ok
            && r.unwrap().0@ == d.rows@[k].values@ && r.unwrap().1 < input@.len()
            && input@.skip(r.unwrap().1 as int) == seq![10u8] + rest_rows(d, k + 1),
{
    let n = input.len();
        let mut pos = start_pos;
        let ghost row_start = pos as int;
        let mut values: Vec<bool> = Vec::new();
        while pos < n && input[pos] == 44
            invariant
                n == input@.len(),
                row_start <= pos <= n,
                forall|d: DiaryDataCsv| #[trigger] is_image(input@, d) ==> {
                    &&& 0 <= k < d.rows@.len()
                    &&& values@.len() <= d.rows@[k].values@.len()
                    &&& input@.skip(pos as int) == rest_cells(d, k, values@.len() as int)
                    &&& date@ == d.rows@[k].date@
                    &&& (forall|jj: int|
                        0 <= jj < values@.len() ==> values@[jj] == d.rows@[k].values@[jj])
                },
            decreases n - pos,
        {
            let ghost j = values@.len() as int;
            let start = pos + 1;
            let end = scan_cell(input, start);
            proof {
                assert forall|d: DiaryDataCsv| #[trigger] is_image(input@, d) implies j
                    < d.rows@[k].values@.len() && end == start + (if d.rows@[k].values@[j] {
                    1int
                } else {
                    0int
                }) && input@.skip(end as int) == rest_cells(d, k, j + 1) by {
                    if j == d.rows@[k].values@.len() {
                        lemma_rest_cells_end(d, k);
                        assert(input@.skip(pos as int)[0] == input@[pos as int]);
                        assert(input@[pos as int] == 10u8);
                        assert(false);
                    }
                    lemma_rest_cells_step(d, k, j);
                    let cell: Seq<u8> = if d.rows@[k].values@[j] {
                        seq![120u8]
                    } else {
                        Seq::<u8>::empty()
                    };
                    assert(input@.skip(pos as int) =~= seq![44u8] + (cell + rest_cells(
                        d,
                        k,
                        j + 1,
                    )));
                    lemma_skip_split(input@, pos as int, seq![44u8], cell + rest_cells(d, k, j + 1));
                    lemma_skip_split(input@, pos as int + 1, cell, rest_cells(d, k, j + 1));
                    assert(is_stop_byte(input@[start + cell.len()])) by {
                        if j + 1 == d.rows@[k].values@.len() {
                            lemma_rest_cells_end(d, k);
                            assert(rest_cells(d, k, j + 1)[0] == 10u8);
                        } else {
                            lemma_rest_cells_step(d, k, j + 1);
                            assert(rest_cells(d, k, j + 1)[0] == 44u8);
                        }
                        assert(input@.skip(start + cell.len())[0] == input@[start + cell.len()]);
                    }
                    assert(forall|jx: int|
                        0 <= jx < cell.len() ==> input@[start + jx] == cell[jx] && !is_stop_byte(
                            #[trigger] cell[jx],
                        ));
                    if end < start + cell.len() {
                        assert(input@[end as int] == cell[end - start]);
                        assert(false);
                    }
                    if end > start + cell.len() {
                        assert(!is_stop_byte(input@[start + cell.len()]));
                        assert(false);
                    }
                }
            }
            values.push(end > start);
            pos = end;
        }
        if pos < n && input[pos] != 10 {
            proof {
                assert forall|d: DiaryDataCsv| #[trigger] is_image(input@, d) implies false by {
                    let j = values@.len() as int;
                    if j < d.rows@[k].values@.len() {
                        lemma_rest_cells_step(d, k, j);
                        assert(input@.skip(pos as int)[0] == input@[pos as int]);
                        assert(input@[pos as int] == 44u8);
                    } else {
                        lemma_rest_cells_end(d, k);
                        assert(input@.skip(pos as int)[0] == input@[pos as int]);
                        assert(input@[pos as int] == 10u8);
                    }
                }
            }
            return Err(DataError::BadDate { line: line });
        }
        if values.len() != width {
            proof {
                assert forall|d: DiaryDataCsv| #[trigger] is_image(input@, d) implies false by {
                    let j = values@.len() as int;
                    if j < d.rows@[k].values@.len() {
                        lemma_rest_cells_step(d, k, j);
                        assert(input@.skip(pos as int)[0] == input@[pos as int]);
                        assert(pos < n && input@[pos as int] == 44u8);
                    }
                    assert(j == d.rows@[k].values@.len());
                    assert(d.rows@[k].values@.len() == d.header@.len());
                }
            }
            return Err(DataError::RowWidthMismatch {
                line: line,
                expected: width,
                found: values.len(),
            });
        }

    proof {
        assert forall|d: DiaryDataCsv| #[trigger] is_image(input@, d) implies values@.len()
            == d.rows@[k].values@.len() && values@ == d.rows@[k].values@ && pos < n
            && input@.skip(pos as int) == seq![10u8] + rest_rows(d, k + 1) by {
            let j = values@.len() as int;
            if j < d.rows@[k].values@.len() {
                lemma_rest_cells_step(d, k, j);
                assert(input@.skip(pos as int)[0] == input@[pos as int]);
                assert(pos < n && input@[pos as int] == 44u8);
            }
            assert(j == d.rows@[k].values@.len());
            assert(values@ =~= d.rows@[k].values@);
            lemma_rest_cells_end(d, k);
            assert(input@.skip(pos as int).len() > 0);
        }
    }
    Ok((values, pos))
}

/// Parses a flat-file image into a diary.
///
/// The header's first cell (the date column label) is skipped; the remaining
/// cells name the categories. Every data line holds a `YYYY-MM-DD` date and
/// one cell per category, where an empty cell is `false` and any other cell
/// is `true`. Dates must be strictly ascending; an equal date is reported as
/// a duplicate, an earlier one as out of order.
///
/// Round trip: for every well-formed diary whose image the input is, parsing
/// succeeds and returns exactly that diary's header and rows. Together with
/// [`serialize_csv_diary`], serializing a diary and re-parsing it yields an
/// identical header and date-to-flags mapping. Conversely (and implied by
/// that clause), a rejected input is the image of no well-formed diary, and
/// the rejection names the defect: a header without usable names, a name
/// holding a carriage return or broken text, a line without a well-formed
/// date or with trailing bytes, a row of the wrong width, and a repeated or
/// out-of-order date, each error carrying the offending line.
#[verifier::rlimit(100)]
pub fn parse_csv_diary(input: &Vec<u8>) -> (r: Result<DiaryDataCsv, DataError>)
    ensures
        r is Ok ==> r.unwrap().wf(),
        r is Err ==> (r->Err_0 is EmptyHeader || r->Err_0 is BadCategoryName || r->Err_0 is BadUtf8
            || r->Err_0 is BadDate || r->Err_0 is RowWidthMismatch || r->Err_0 is DuplicateDate
            || r->Err_0 is OutOfOrderDate),
        forall|d: DiaryDataCsv| #[trigger] is_image(input@, d) ==> {
            &&& r is Ok
            &&& r.unwrap().header@.len() == d.header@.len()
            &&& (forall|i: int|
                0 <= i < d.header@.len() ==> (#[trigger] r.unwrap().header@[i])@
                    == d.header@[i]@)
            &&& r.unwrap().rows@.len() == d.rows@.len()
            &&& (forall|k: int|
                0 <= k < d.rows@.len() ==> (#[trigger] r.unwrap().rows@[k]).date@
                    == d.rows@[k].date@ && r.unwrap().rows@[k].values@ == d.rows@[k].values@)
        },
{
    let n = input.len();
    let mut pos = scan_cell(input, 0);
    proof {
        assert forall|d: DiaryDataCsv| #[trigger] is_image(input@, d) implies pos == 4
            && input@.skip(4) == rest_header(d, 0) by {
            lemma_file_start(d, input@);
            lemma_rest_header_step(d, 0);
            assert(input@.skip(4)[0] == input@[4]);
            assert(input@[4] == 44u8);
            assert(!is_stop_byte(input@[0]) && !is_stop_byte(input@[1]) && !is_stop_byte(
                input@[2],
            ) && !is_stop_byte(input@[3]));
            if pos < 4 {
                assert(is_stop_byte(input@[pos as int]));
                assert(false);
            }
            if pos > 4 {
                assert(!is_stop_byte(input@[4]));
                assert(false);
            }
        }
    }
    let mut names: Vec<String> = Vec::new();
    while pos < n && input[pos] == 44
        invariant
            n == input@.len(),
            pos <= n,
            pos == n || is_stop_byte(input@[pos as int]),
            forall|jj: int| 0 <= jj < names@.len() ==> valid_name((#[trigger] names@[jj])@),
            forall|d: DiaryDataCsv| #[trigger] is_image(input@, d) ==> {
                &&& names@.len() <= d.header@.len()
                &&& input@.skip(pos as int) == rest_header(d, names@.len() as int)
                &&& (forall|jj: int|
                    0 <= jj < names@.len() ==> (#[trigger] names@[jj])@ == d.header@[jj]@)
            },
        decreases n - pos,
    {
        let ghost i = names@.len() as int;
        let start = pos + 1;
        let end = scan_cell(input, start);
        proof {
            assert forall|d: DiaryDataCsv| #[trigger] is_image(input@, d) implies i
                < d.header@.len() && end == start + vstd::utf8::encode_utf8(
                d.header@[i]@,
            ).len() && input@.skip(end as int) == rest_header(d, i + 1) && input@.subrange(
                start as int,
                end as int,
            ) == vstd::utf8::encode_utf8(d.header@[i]@) by {
                if i == d.header@.len() {
                    lemma_rest_header_end(d);
                    assert(input@.skip(pos as int)[0] == input@[pos as int]);
                    assert(input@[pos as int] == 10u8);
                    assert(false);
                }
                lemma_rest_header_step(d, i);
                let enc = vstd::utf8::encode_utf8(d.header@[i]@);
                assert(input@.skip(pos as int) =~= seq![44u8] + (enc + rest_header(d, i + 1)));
                lemma_skip_split(input@, pos as int, seq![44u8], enc + rest_header(d, i + 1));
                lemma_skip_split(input@, pos as int + 1, enc, rest_header(d, i + 1));
                assert(valid_name(d.header@[i]@));
                // the byte after the name is a stop byte
                assert(is_stop_byte(input@[start + enc.len()])) by {
                    if i + 1 == d.header@.len() {
                        lemma_rest_header_end(d);
                        assert(rest_header(d, i + 1)[0] == 10u8);
                    } else {
                        lemma_rest_header_step(d, i + 1);
                        assert(rest_header(d, i + 1)[0] == 44u8);
                    }
                    assert(input@.skip(start + enc.len())[0] == input@[start + enc.len()]);
                }
                // no byte of the name is a stop byte
                assert(forall|j: int|
                    0 <= j < enc.len() ==> input@[start + j] == enc[j] && !is_stop_byte(
                        #[trigger] enc[j],
                    ));
                if end < start + enc.len() {
                    assert(input@[end as int] == enc[end - start]);
                    assert(false);
                }
                if end > start + enc.len() {
                    assert(!is_stop_byte(input@[start + enc.len()]));
                    assert(false);
                }
                assert(input@.subrange(start as int, end as int) =~= enc);
            }
        }
        if end == start {
            proof {
                assert forall|d: DiaryDataCsv| #[trigger] is_image(input@, d) implies false by {
                    assert(valid_name(d.header@[i]@));
                }
            }
            return Err(DataError::EmptyHeader);
        }
        let name_bytes = copy_range(input, start, end);
        if has_cr(&name_bytes) {
            proof {
                assert forall|d: DiaryDataCsv| #[trigger] is_image(input@, d) implies false by {
                    assert(valid_name(d.header@[i]@));
                    let enc = vstd::utf8::encode_utf8(d.header@[i]@);
                    let j = choose|j: int| 0 <= j < name_bytes@.len() && name_bytes@[j] == 13u8;
                    assert(enc[j] == 13u8);
                }
            }
            return Err(DataError::BadCategoryName);
        }
        let name = match bytes_to_string(name_bytes) {
            Some(s) => s,
            None => {
                proof {
                    assert forall|d: DiaryDataCsv| #[trigger] is_image(input@, d) implies false by {
                        vstd::utf8::encode_utf8_valid_utf8(d.header@[i]@);
                    }
                }
                return Err(DataError::BadUtf8);
            },
        };
        proof {
            // the name is usable in a file: its bytes are nonempty and free of
            // delimiters, line breaks and carriage returns
            assert(valid_name(name@)) by {
                assert(vstd::utf8::encode_utf8(name@) == input@.subrange(start as int, end as int));
                assert forall|j: int|
                    0 <= j < vstd::utf8::encode_utf8(name@).len() implies #[trigger] vstd::utf8::encode_utf8(
                    name@,
                )[j] != 44u8 && vstd::utf8::encode_utf8(name@)[j] != 10u8
                    && vstd::utf8::encode_utf8(name@)[j] != 13u8 by {
                    assert(vstd::utf8::encode_utf8(name@)[j] == input@[start + j]);
                    assert(!is_stop_byte(input@[start + j]));
                }
            }
            assert forall|d: DiaryDataCsv| #[trigger] is_image(input@, d) implies name@
                == d.header@[i]@ by {
                vstd::utf8::encode_utf8_decode_utf8(name@);
                vstd::utf8::encode_utf8_decode_utf8(d.header@[i]@);
            }
        }
        names.push(name);
        pos = end;
    }
    if names.len() == 0 {
        proof {
            assert forall|d: DiaryDataCsv| #[trigger] is_image(input@, d) implies false by {
                assert(d.header@.len() >= 1);
                lemma_rest_header_step(d, 0);
                assert(input@.skip(pos as int)[0] == input@[pos as int]);
            }
        }
        return Err(DataError::EmptyHeader);
    }
    proof {
        assert forall|d: DiaryDataCsv| #[trigger] is_image(input@, d) implies names@.len()
            == d.header@.len() && pos < n && input@[pos as int] == 10u8 by {
            if (names@.len() as int) < d.header@.len() {
                lemma_rest_header_step(d, names@.len() as int);
                assert(input@.skip(pos as int)[0] == input@[pos as int]);
                assert(input@[pos as int] == 44u8);
                assert(false);
            }
            lemma_rest_header_end(d);
            assert(input@.skip(pos as int)[0] == input@[pos as int]);
        }
    }
    if pos < n {
        pos = pos + 1;
    }
    proof {
        assert forall|d: DiaryDataCsv| #[trigger] is_image(input@, d) implies input@.skip(
            pos as int,
        ) == rest_rows(d, 0) by {
            lemma_rest_header_end(d);
            lemma_skip_split(input@, pos as int - 1, seq![10u8], rest_rows(d, 0));
        }
    }
    let mut rows: Vec<DayRow> = Vec::new();
    while pos < n
        invariant
            n == input@.len(),
            pos <= n,
            names@.len() >= 1,
            forall|jj: int| 0 <= jj < names@.len() ==> valid_name((#[trigger] names@[jj])@),
            forall|p: int, q: int|
                0 <= p < q < rows@.len() ==> rows@[p].date@ < rows@[q].date@,
            forall|kk: int|
                0 <= kk < rows@.len() ==> (#[trigger] rows@[kk]).values@.len() == names@.len(),
            forall|kk: int| 0 <= kk < rows@.len() ==> (#[trigger] rows@[kk]).date.valid(),
            forall|d: DiaryDataCsv| #[trigger] is_image(input@, d) ==> {
                &&& names@.len() == d.header@.len()
                &&& rows@.len() <= d.rows@.len()
                &&& input@.skip(pos as int) == rest_rows(d, rows@.len() as int)
                &&& (forall|kk: int|
                    0 <= kk < rows@.len() ==> (#[trigger] rows@[kk]).date@ == d.rows@[kk].date@
                        && rows@[kk].values@ == d.rows@[kk].values@)
            },
        decreases n - pos,
    {
        let ghost k = rows@.len() as int;
        proof {
            assert forall|d: DiaryDataCsv| #[trigger] is_image(input@, d) implies k
                < d.rows@.len() && input@.skip(pos as int) == date_cell(d.rows@[k].date@)
                + rest_cells(d, k, 0) && input@.subrange(pos as int, pos as int + 10) == date_cell(
                d.rows@[k].date@,
            ) && 0 <= d.rows@[k].date@ < crate::date::day_count() by {
                lemma_rows_lines_len(d.rows@.skip(k));
                if k == d.rows@.len() {
                    assert(input@.skip(pos as int).len() == 0);
                    assert(false);
                }
                lemma_rest_rows_step(d, k);
                lemma_skip_split(input@, pos as int, date_cell(d.rows@[k].date@), rest_cells(d, k, 0));
                assert(input@.subrange(pos as int, pos as int + 10) =~= date_cell(
                    d.rows@[k].date@,
                ));
            }
        }
        let date = match parse_date_at(input, pos) {
            Some(dt) => dt,
            None => {
                return Err(DataError::BadDate { line: line_no(rows.len()) });
            },
        };
        if rows.len() > 0 {
            let prev = rows[rows.len() - 1].date;
            if date.eq_date(prev) {
                proof {
                    assert forall|d: DiaryDataCsv| #[trigger] is_image(input@, d) implies false by {
                        assert(d.rows@[k - 1].date@ < d.rows@[k].date@);
                    }
                }
                return Err(DataError::DuplicateDate { line: line_no(rows.len()) });
            }
            if date.lt(prev) {
                proof {
                    assert forall|d: DiaryDataCsv| #[trigger] is_image(input@, d) implies false by {
                        assert(d.rows@[k - 1].date@ < d.rows@[k].date@);
                    }
                }
                return Err(DataError::OutOfOrderDate { line: line_no(rows.len()) });
            }
        }
        pos = pos + 10;
        proof {
            assert forall|d: DiaryDataCsv| #[trigger] is_image(input@, d) implies input@.skip(
                pos as int,
            ) == rest_cells(d, k, 0) && date@ == d.rows@[k].date@ by {
                lemma_skip_split(
                    input@,
                    pos as int - 10,
                    date_cell(d.rows@[k].date@),
                    rest_cells(d, k, 0),
                );
            }
        }
        let (values, new_pos) = match parse_row_cells(
            input,
            pos,
            names.len(),
            line_no(rows.len()),
            date,
            Ghost(k),
        ) {
            Ok(vp) => vp,
            Err(e) => {
                return Err(e);
            },
        };
        pos = new_pos;
        let ghost prev_rows = rows@;
        rows.push(DayRow { date, values });
        if pos < n {
            pos = pos + 1;
        }
        proof {
            assert forall|p: int, q: int| 0 <= p < q < rows@.len() implies rows@[p].date@
                < rows@[q].date@ by {
                if q < rows@.len() - 1 {
                    assert(prev_rows[p].date@ < prev_rows[q].date@);
                } else if p < rows@.len() - 1 {
                    assert(prev_rows[p].date@ <= prev_rows[prev_rows.len() - 1].date@);
                }
            }
            assert forall|d: DiaryDataCsv| #[trigger] is_image(input@, d) implies input@.skip(
                pos as int,
            ) == rest_rows(d, rows@.len() as int) by {
                lemma_skip_split(input@, pos as int - 1, seq![10u8], rest_rows(d, k + 1));
            }
        }
    }
    proof {
        assert forall|d: DiaryDataCsv| #[trigger] is_image(input@, d) implies rows@.len()
            == d.rows@.len() by {
            lemma_rows_lines_len(d.rows@.skip(rows@.len() as int));
            assert(input@.skip(pos as int).len() == 0);
        }
    }
    Ok(DiaryDataCsv { header: names, rows })
}

} // verus!
