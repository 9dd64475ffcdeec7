//! The relational diary backend: an embedded SQLite database holding the
//! schema-versioned tables, with a mirrored category list on which the
//! category lifecycle is decided.
//!
//! Every statement the backend executes stands behind a small trusted
//! wrapper; the decision logic around the statements — schema versioning,
//! category add/hide, identifier validation, timestamp arithmetic, gap
//! detection and row assembly — is verified.
use vstd::prelude::*;

use crate::datafile::{
    missing_days, AddCategoryResult, DataError, HideCategoryResult, SuccessfulUpdate,
};
use crate::date::{day_count, Date};

verus! {

/// The schema version this code writes and expects.
pub const CURRENT_DB_VERSION: u64 = 1;

#[verifier::external_type_specification]
#[verifier::external_body]
pub struct ExConnection(rusqlite::Connection);

/// Relies on Connection::execute_batch to run the schema DDL: it creates the
/// Info, Category, DateEntry and EntryToCategories tables, dropping previous
/// ones, inside one transaction.
#[verifier::external_body]
fn sql_create_schema(conn: &rusqlite::Connection) -> (r: Result<(), String>)
{
    conn.execute_batch(
        "BEGIN; DROP TABLE IF EXISTS Info; CREATE TABLE Info(info_id INTEGER PRIMARY KEY AUTOINCREMENT, info_name TEXT UNIQUE NOT NULL, info_value TEXT NOT NULL); \
        DROP TABLE IF EXISTS Category; CREATE TABLE Category(category_id INTEGER PRIMARY KEY AUTOINCREMENT, name TEXT NOT NULL, created_at INTEGER NOT NULL, hidden INTEGER NOT NULL); \
        DROP TABLE IF EXISTS DateEntry; CREATE TABLE DateEntry(date DATE PRIMARY KEY, created_at INTEGER NOT NULL); \
        DROP TABLE IF EXISTS EntryToCategories; CREATE TABLE EntryToCategories(date INTEGER NOT NULL REFERENCES DateEntry(date) ON DELETE CASCADE, category_id INTEGER NOT NULL REFERENCES Category(category_id) ON DELETE CASCADE, PRIMARY KEY(category_id, date)); COMMIT;",
    ).map_err(|e| e.to_string())
}

/// Relies on Connection::execute_batch for the version-0-to-1 step: it
/// rebuilds the Info table and adds the `hidden` column to Category.
#[verifier::external_body]
fn sql_migrate_to_v1(conn: &rusqlite::Connection) -> (r: Result<(), String>)
{
    conn.execute_batch(
        "BEGIN; DROP TABLE IF EXISTS Info; CREATE TABLE Info(info_id INTEGER PRIMARY KEY AUTOINCREMENT, info_name TEXT UNIQUE NOT NULL, info_value TEXT NOT NULL); \
        ALTER TABLE Category ADD COLUMN hidden INTEGER NOT NULL DEFAULT 0; COMMIT;",
    ).map_err(|e| e.to_string())
}

/// Relies on Connection::execute to stamp the current schema version into Info.
#[verifier::external_body]
fn sql_insert_version(conn: &rusqlite::Connection, version: i64) -> (r: Result<(), String>)
{
    conn.execute(
        "INSERT INTO Info (info_name, info_value) VALUES (\"version\", ?1)",
        (version,),
    ).map(|_| ()).map_err(|e| e.to_string())
}

/// Relies on Connection::query_row to read the stored schema version; any
/// failure (no Info table, no row) reads as no stored version.
#[verifier::external_body]
fn sql_read_version(conn: &rusqlite::Connection) -> (r: Option<String>)
{
    conn.query_row(
        "SELECT info_value FROM Info WHERE info_name=\"version\"",
        (),
        |row| row.get::<usize, String>(0),
    ).ok()
}

/// Relies on Statement::query_map with ORDER BY over the identifier column:
/// all categories, each as (identifier, name, hidden flag), identifiers
/// non-decreasing.
#[verifier::external_body]
fn sql_select_categories(conn: &rusqlite::Connection) -> (r: Result<Vec<(i64, String, i64)>, String>)
    ensures
        r is Ok ==> forall|i: int, j: int|
            0 <= i < j < r.unwrap()@.len() ==> (#[trigger] r.unwrap()@[i]).0 <= (
            #[trigger] r.unwrap()@[j]).0,
{
    let run = || -> rusqlite::Result<Vec<(i64, String, i64)>> {
        let mut statement = conn.prepare(
            "SELECT category_id, name, hidden FROM Category ORDER BY category_id",
        )?;
        let rows = statement.query_map((), |row| Ok((row.get(0)?, row.get(1)?, row.get(2)?)))?;
        rows.collect()
    };
    run().map_err(|e| e.to_string())
}

/// Relies on Connection::execute to insert a category row with an explicit
/// identifier, visible.
#[verifier::external_body]
fn sql_insert_category(
    conn: &rusqlite::Connection,
    id: i64,
    name: &String,
    created_at: i64,
) -> (r: Result<(), String>)
{
    conn.execute(
        "INSERT INTO Category (category_id, name, created_at, hidden) VALUES (?1, ?2, ?3, 0)",
        (id, name.as_str(), created_at),
    ).map(|_| ()).map_err(|e| e.to_string())
}

/// Relies on Connection::execute to set a category's hidden flag.
#[verifier::external_body]
fn sql_set_category_hidden(
    conn: &rusqlite::Connection,
    id: i64,
    hidden: bool,
) -> (r: Result<(), String>)
{
    let flag: i64 = if hidden { 1 } else { 0 };
    conn.execute(
        "UPDATE Category SET hidden=?1 WHERE category_id=?2",
        (flag, id),
    ).map(|_| ()).map_err(|e| e.to_string())
}

/// Relies on Connection::execute to open a transaction.
#[verifier::external_body]
fn sql_begin(conn: &rusqlite::Connection) -> (r: Result<(), String>)
{
    conn.execute("BEGIN", ()).map(|_| ()).map_err(|e| e.to_string())
}

/// Relies on Connection::execute to commit the open transaction.
#[verifier::external_body]
fn sql_commit(conn: &rusqlite::Connection) -> (r: Result<(), String>)
{
    conn.execute("COMMIT", ()).map(|_| ()).map_err(|e| e.to_string())
}

/// Relies on Connection::execute to delete the date entry of one timestamp;
/// returns how many rows were deleted.
#[verifier::external_body]
fn sql_delete_date_entry(conn: &rusqlite::Connection, ts: i64) -> (r: Result<usize, String>)
{
    conn.execute("DELETE FROM DateEntry WHERE date=?1", (ts,)).map_err(|e| e.to_string())
}

/// Relies on Connection::execute to insert a fresh date entry.
#[verifier::external_body]
fn sql_insert_date_entry(
    conn: &rusqlite::Connection,
    ts: i64,
    created_at: i64,
) -> (r: Result<(), String>)
{
    conn.execute(
        "INSERT INTO DateEntry (date, created_at) VALUES (?1, ?2)",
        (ts, created_at),
    ).map(|_| ()).map_err(|e| e.to_string())
}

/// Relies on Connection::execute to associate one category with one date.
#[verifier::external_body]
fn sql_insert_entry_category(
    conn: &rusqlite::Connection,
    ts: i64,
    category_id: i64,
) -> (r: Result<(), String>)
{
    conn.execute(
        "INSERT INTO EntryToCategories (date, category_id) VALUES (?1, ?2)",
        (ts, category_id),
    ).map(|_| ()).map_err(|e| e.to_string())
}

/// Relies on Connection::query_row with COUNT(*), which is never negative.
#[verifier::external_body]
fn sql_count_category_in_range(
    conn: &rusqlite::Connection,
    category_id: i64,
    from_ts: i64,
    to_ts: i64,
) -> (r: Result<i64, String>)
    ensures
        r is Ok ==> r.unwrap() >= 0,
{
    conn.query_row(
        "SELECT COUNT(*) FROM EntryToCategories WHERE category_id=?1 AND date<=?2 AND date>=?3",
        (category_id, to_ts, from_ts),
        |row| row.get(0),
    ).map_err(|e| e.to_string())
}

/// Relies on Connection::query_row with COUNT(*), which is never negative.
#[verifier::external_body]
fn sql_count_date_entries(conn: &rusqlite::Connection) -> (r: Result<i64, String>)
    ensures
        r is Ok ==> r.unwrap() >= 0,
{
    conn.query_row("SELECT COUNT(*) FROM DateEntry", (), |row| row.get(0))
        .map_err(|e| e.to_string())
}

/// Relies on Connection::query_row with MIN and MAX over the same non-empty
/// column, so the minimum does not exceed the maximum; an empty table reads
/// as no bounds.
#[verifier::external_body]
fn sql_min_max_date(conn: &rusqlite::Connection) -> (r: Result<Option<(i64, i64)>, String>)
    ensures
        r matches Ok(Some(b)) ==> b.0 <= b.1,
{
    conn.query_row(
        "SELECT MIN(date), MAX(date) FROM DateEntry",
        (),
        |row| {
            let lo: Option<i64> = row.get(0)?;
            let hi: Option<i64> = row.get(1)?;
            Ok(lo.zip(hi))
        },
    ).map_err(|e| e.to_string())
}

/// Relies on Statement::query_map with SELECT DISTINCT ... ORDER BY and a
/// range WHERE clause: the returned timestamps are strictly ascending and
/// within the queried bounds.
#[verifier::external_body]
fn sql_select_dates_in_range(
    conn: &rusqlite::Connection,
    from_ts: i64,
    until_ts: i64,
) -> (r: Result<Vec<i64>, String>)
    ensures
        r is Ok ==> forall|i: int, j: int|
            0 <= i < j < r.unwrap()@.len() ==> r.unwrap()@[i] < r.unwrap()@[j],
        r is Ok ==> forall|i: int|
            0 <= i < r.unwrap()@.len() ==> from_ts <= #[trigger] r.unwrap()@[i] <= until_ts,
{
    let run = || -> rusqlite::Result<Vec<i64>> {
        let mut statement = conn.prepare(
            "SELECT DISTINCT date FROM DateEntry WHERE date>=?1 AND date<=?2 ORDER BY date",
        )?;
        let rows = statement.query_map((from_ts, until_ts), |row| row.get(0))?;
        rows.collect()
    };
    run().map_err(|e| e.to_string())
}

/// Relies on Statement::query_map with GROUP BY date ... ORDER BY date DESC
/// and a range WHERE clause: one pair per grouped date, strictly descending
/// and within the queried bounds, each with the concatenated identifiers of
/// its visible categories, or the word EMPTY for a tracked date with none.
#[verifier::external_body]
fn sql_select_rows_grouped(
    conn: &rusqlite::Connection,
    from_ts: i64,
    until_ts: i64,
) -> (r: Result<Vec<(i64, String)>, String>)
    ensures
        r is Ok ==> forall|i: int, j: int|
            0 <= i < j < r.unwrap()@.len() ==> (#[trigger] r.unwrap()@[i]).0 > (
            #[trigger] r.unwrap()@[j]).0,
        r is Ok ==> forall|i: int|
            0 <= i < r.unwrap()@.len() ==> from_ts <= (#[trigger] r.unwrap()@[i]).0 <= until_ts,
{
    let run = || -> rusqlite::Result<Vec<(i64, String)>> {
        let mut statement = conn.prepare(
            "SELECT date, group_concat(coalesce(category_id, 'EMPTY'), ';') FROM DateEntry LEFT JOIN EntryToCategories USING(date) \
            WHERE date>=?1 AND date<=?2 AND (category_id ISNULL OR 0=(SELECT hidden FROM Category WHERE EntryToCategories.category_id=Category.category_id)) \
            GROUP BY date ORDER BY date DESC",
        )?;
        let rows = statement.query_map((from_ts, until_ts), |row| Ok((row.get(0)?, row.get(1)?)))?;
        rows.collect()
    };
    run().map_err(|e| e.to_string())
}

/// Relies on Statement::query_map with GROUP BY ... ORDER BY COUNT(date)
/// DESC LIMIT: at most `limit` signature groups, one per distinct signature
/// string (the grouping key), their occurrence counts non-increasing, each
/// group counting at least one matched date.
#[verifier::external_body]
fn sql_select_signature_counts(
    conn: &rusqlite::Connection,
    from_ts: i64,
    until_ts: i64,
    limit: i64,
) -> (r: Result<Vec<(String, i64)>, String>)
    ensures
        r is Ok && limit >= 0 ==> r.unwrap()@.len() <= limit,
        r is Ok ==> forall|i: int, j: int|
            0 <= i < j < r.unwrap()@.len() ==> (#[trigger] r.unwrap()@[i]).1 >= (
            #[trigger] r.unwrap()@[j]).1,
        r is Ok ==> forall|i: int| 0 <= i < r.unwrap()@.len() ==> (#[trigger] r.unwrap()@[i]).1 >= 1,
        r is Ok ==> forall|i: int, j: int|
            0 <= i < j < r.unwrap()@.len() ==> (#[trigger] r.unwrap()@[i]).0@ != (
            #[trigger] r.unwrap()@[j]).0@,
{
    let run = || -> rusqlite::Result<Vec<(String, i64)>> {
        let mut statement = conn.prepare(
            "SELECT concat_categories, COUNT(date) FROM (SELECT date, group_concat(category_id, ';') AS concat_categories FROM EntryToCategories \
            WHERE date>=(?1) AND date<=(?2) AND 0=(SELECT hidden FROM Category WHERE EntryToCategories.category_id=Category.category_id) GROUP BY date) \
            GROUP BY concat_categories ORDER BY COUNT(date) DESC LIMIT (?3)",
        )?;
        let rows = statement.query_map((from_ts, until_ts, limit), |row| Ok((row.get(0)?, row.get(1)?)))?;
        rows.collect()
    };
    run().map_err(|e| e.to_string())
}

/// Relies on chrono::Local::now for the current wall-clock timestamp.
#[verifier::external_body]
fn now_timestamp() -> (r: i64)
{
    chrono::Local::now().timestamp()
}

} // verus!

verus! {

/// The day number of 1970-01-01, the timestamp epoch.
pub const EPOCH_DAY: u32 = 719162;

/// The day-aligned timestamp under which a date is stored.
pub open spec fn ts_of_day(day: int) -> int {
    (day - 719162) * 86400
}

/// The day a stored timestamp falls in (timestamps within a day round down).
pub open spec fn day_of_ts(ts: int) -> int {
    ts / 86400 + 719162
}

/// The number of supported days, as a runtime value.
pub fn day_count_exec() -> (r: u32)
    ensures
        r as int == day_count(),
{
    proof {
        crate::date::lemma_days_before_year_bounds(10000);
    }
    let mut yy: u32 = 1;
    let mut acc: u32 = 0;
    while yy < 10000
        invariant
            1 <= yy <= 10000,
            acc == crate::date::days_before_year(yy as int),
            day_count() <= 366 * 9999,
        decreases 10000 - yy,
    {
        proof {
            crate::date::lemma_days_before_year_bounds(yy as int);
            crate::date::lemma_days_before_year_monotone(yy as int + 1, 10000);
        }
        acc = acc + crate::date::days_in_year_exec(yy);
        yy = yy + 1;
    }
    acc
}

/// The timestamp under which a date is stored.
pub fn date_to_timestamp(date: Date) -> (r: i64)
    requires
        date.valid(),
    ensures
        r == ts_of_day(date@),
{
    proof {
        crate::date::lemma_days_before_year_bounds(10000);
    }
    let day = date.day_value() as i64;
    (day - 719162) * 86400
}

/// The date a stored timestamp falls in, when it lies within the supported
/// years.
pub fn timestamp_to_date(ts: i64) -> (r: Option<Date>)
    ensures
        r is Some <==> 0 <= day_of_ts(ts as int) < day_count(),
        r is Some ==> r.unwrap()@ == day_of_ts(ts as int) && r.unwrap().valid(),
{
    proof {
        crate::date::lemma_days_before_year_bounds(10000);
    }
    let limit = day_count_exec();
    if ts >= 0 {
        let q = (ts as u64) / 86400;
        proof {
            assert(q as int == ts as int / 86400) by (nonlinear_arith)
                requires
                    ts >= 0,
                    q == (ts as u64) / 86400,
            ;
        }
        if q >= (limit as u64) || (q as u32) >= limit - EPOCH_DAY {
            return None;
        }
        Some(Date::from_day_number((q as u32) + EPOCH_DAY))
    } else {
        // magnitude of ts, avoiding overflow at the smallest value
        let mag: u64 = ((-(ts + 1)) as u64) + 1;
        let k: u64 = (mag + 86399) / 86400;
        proof {
            assert(0 - (k as int) == ts as int / 86400) by (nonlinear_arith)
                requires
                    ts < 0,
                    mag == 0 - (ts as int),
                    k == ((mag as int) + 86399) / 86400,
            ;
        }
        if k > (EPOCH_DAY as u64) {
            return None;
        }
        Some(Date::from_day_number(EPOCH_DAY - (k as u32)))
    }
}

/// The decimal value of a digit string.
pub open spec fn dec_val(s: Seq<u8>) -> int
    decreases s.len(),
{
    if s.len() == 0 {
        0
    } else {
        dec_val(s.drop_last()) * 10 + (s.last() - 48)
    }
}

/// Parses a short decimal number: at most nine digits, nothing else.
pub fn parse_small_u64(s: &String) -> (r: Option<u64>)
    ensures
        r is Some <==> (1 <= vstd::utf8::encode_utf8(s@).len() <= 9 && forall|i: int|
            0 <= i < vstd::utf8::encode_utf8(s@).len() ==> 48 <= #[trigger] vstd::utf8::encode_utf8(
                s@,
            )[i] <= 57),
        r is Some ==> r.unwrap() == dec_val(vstd::utf8::encode_utf8(s@)),
{
    let b = s.as_str().as_bytes();
    if b.len() == 0 || b.len() > 9 {
        return None;
    }
    let mut acc: u64 = 0;
    let mut i: usize = 0;
    while i < b.len()
        invariant
            0 <= i <= b@.len() <= 9,
            b@ == vstd::utf8::encode_utf8(s@),
            forall|j: int| 0 <= j < i ==> 48 <= #[trigger] b@[j] <= 57,
            acc == dec_val(b@.take(i as int)),
            acc <= 999999999,
        decreases b@.len() - i,
    {
        let c = b[i];
        if c < 48 || c > 57 {
            return None;
        }
        proof {
            assert(b@.take(i as int + 1).drop_last() =~= b@.take(i as int));
            assert(b@.take(i as int + 1).last() == b@[i as int]);
            assert(forall|j: int| 0 <= j < i + 1 ==> 48 <= #[trigger] b@.take(i as int + 1)[j] <= 57);
            lemma_dec_val_bound(b@.take(i as int + 1));
        }
        acc = acc * 10 + ((c - 48) as u64);
        i = i + 1;
    }
    proof {
        assert(b@.take(b@.len() as int) =~= b@);
    }
    Some(acc)
}

proof fn lemma_dec_val_bound(s: Seq<u8>)
    requires
        forall|j: int| 0 <= j < s.len() ==> 48 <= #[trigger] s[j] <= 57,
        s.len() <= 9,
    ensures
        0 <= dec_val(s) < 1000000000,
{
    lemma_dec_val_bound_n(s);
    lemma_pow10_le(s.len() as int, 9);
    assert(pow10(9) == 1000000000) by {
        reveal_with_fuel(pow10, 11);
    }
}

proof fn lemma_pow10_pos(n: int)
    ensures
        pow10(n) >= 1,
    decreases (if n > 0 { n } else { 0 }),
{
    if n > 0 {
        lemma_pow10_pos(n - 1);
    }
}

proof fn lemma_pow10_le(a: int, b: int)
    requires
        a <= b,
    ensures
        pow10(a) <= pow10(b),
    decreases b - a,
{
    if a < b {
        lemma_pow10_le(a, b - 1);
        lemma_pow10_pos(b - 1);
    }
}

proof fn lemma_dec_val_bound_n(s: Seq<u8>)
    requires
        forall|j: int| 0 <= j < s.len() ==> 48 <= #[trigger] s[j] <= 57,
    ensures
        0 <= dec_val(s),
        dec_val(s) < pow10(s.len() as int),
    decreases s.len(),
{
    if s.len() > 0 {
        assert(forall|j: int|
            0 <= j < s.drop_last().len() ==> 48 <= #[trigger] s.drop_last()[j] <= 57) by {
            assert(forall|j: int| 0 <= j < s.drop_last().len() ==> s.drop_last()[j] == s[j]);
        }
        lemma_dec_val_bound_n(s.drop_last());
        assert(dec_val(s) == dec_val(s.drop_last()) * 10 + (s.last() - 48));
        assert(dec_val(s.drop_last()) * 10 + 9 < pow10(s.len() as int)) by (nonlinear_arith)
            requires
                0 <= dec_val(s.drop_last()),
                dec_val(s.drop_last()) < pow10(s.len() as int - 1),
                pow10(s.len() as int) == 10 * pow10(s.len() as int - 1),
        ;
    }
}

pub open spec fn pow10(n: int) -> int
    decreases n,
{
    if n <= 0 {
        1
    } else {
        10 * pow10(n - 1)
    }
}

/// The version a stored Info value denotes: its decimal value, or zero when
/// it is absent or not a short plain number.
pub fn version_from_info(v: &Option<String>) -> (r: u64)
    ensures
        v is None ==> r == 0,
        v matches Some(s) ==> r == (if 1 <= vstd::utf8::encode_utf8(s@).len() <= 9 && (forall|
            i: int,
        |
            0 <= i < vstd::utf8::encode_utf8(s@).len() ==> 48 <= #[trigger] vstd::utf8::encode_utf8(
                s@,
            )[i] <= 57) {
            dec_val(vstd::utf8::encode_utf8(s@))
        } else {
            0
        }),
{
    match v {
        None => 0,
        Some(s) => {
            match parse_small_u64(s) {
                Some(n) => {
                    proof {
                        lemma_dec_val_bound(vstd::utf8::encode_utf8(s@));
                    }
                    n
                },
                None => 0,
            }
        },
    }
}

} // verus!

verus! {

/// One category of the diary: identified by its number, never deleted, at
/// most soft-hidden.
pub struct Category {
    pub id: i64,
    pub name: String,
    pub hidden: bool,
}

/// The relational backend: the open database handle and a mirror of the
/// category table, kept in ascending identifier order, on which the
/// category lifecycle is decided and verified.
pub struct DiaryDataSqlite {
    connection: rusqlite::Connection,
    cats: Vec<Category>,
}

/// The index of the first category with this name, or the list's length.
pub open spec fn first_cat_with_name(cats: Seq<Category>, name: Seq<char>) -> int
    decreases cats.len(),
{
    if cats.len() == 0 {
        0
    } else if cats.first().name@ == name {
        0
    } else {
        1 + first_cat_with_name(cats.drop_first(), name)
    }
}

pub proof fn lemma_first_cat_with_name(cats: Seq<Category>, name: Seq<char>)
    ensures
        0 <= first_cat_with_name(cats, name) <= cats.len(),
        first_cat_with_name(cats, name) < cats.len() ==> cats[first_cat_with_name(
            cats,
            name,
        )].name@ == name,
        forall|j: int|
            0 <= j < first_cat_with_name(cats, name) ==> (#[trigger] cats[j]).name@ != name,
    decreases cats.len(),
{
    if cats.len() > 0 && cats.first().name@ != name {
        lemma_first_cat_with_name(cats.drop_first(), name);
        assert forall|j: int| 0 <= j < first_cat_with_name(cats, name) implies (
        #[trigger] cats[j]).name@ != name by {
            if j >= 1 {
                assert(cats.drop_first()[j - 1] == cats[j]);
            }
        }
    }
}

/// Whether some category carries this identifier.
pub open spec fn has_cat_id(cats: Seq<Category>, id: i64) -> bool {
    exists|i: int| 0 <= i < cats.len() && cats[i].id == id
}

/// The identifier the next created category receives: one past the largest.
pub open spec fn next_cat_id(cats: Seq<Category>) -> int
    decreases cats.len(),
{
    if cats.len() == 0 {
        1
    } else {
        let rest = next_cat_id(cats.drop_last());
        if cats.last().id + 1 > rest {
            cats.last().id + 1
        } else {
            rest
        }
    }
}

/// The visible categories, in stored order.
pub open spec fn visible_cats(cats: Seq<Category>) -> Seq<Category>
    decreases cats.len(),
{
    if cats.len() == 0 {
        Seq::empty()
    } else {
        visible_cats(cats.drop_last()) + (if cats.last().hidden {
            Seq::empty()
        } else {
            seq![cats.last()]
        })
    }
}

/// The mirror's stable creation order: identifiers strictly ascending.
pub open spec fn cats_sorted(cats: Seq<Category>) -> bool {
    forall|i: int, j: int| 0 <= i < j < cats.len() ==> cats[i].id < cats[j].id
}

/// The visible categories of an ordered mirror keep strictly ascending
/// identifiers, below the last stored one.
pub proof fn lemma_visible_cats_sorted(cats: Seq<Category>)
    requires
        cats_sorted(cats),
    ensures
        forall|i: int, j: int|
            0 <= i < j < visible_cats(cats).len() ==> visible_cats(cats)[i].id < visible_cats(
                cats,
            )[j].id,
        visible_cats(cats).len() > 0 && cats.len() > 0 ==> visible_cats(cats).last().id
            <= cats.last().id,
    decreases cats.len(),
{
    if cats.len() > 0 {
        assert(cats_sorted(cats.drop_last())) by {
            assert(forall|i: int|
                0 <= i < cats.drop_last().len() ==> cats.drop_last()[i] == cats[i]);
        }
        lemma_visible_cats_sorted(cats.drop_last());
        let prev = visible_cats(cats.drop_last());
        if !cats.last().hidden {
            assert forall|i: int, j: int|
                0 <= i < j < visible_cats(cats).len() implies visible_cats(cats)[i].id
                < visible_cats(cats)[j].id by {
                if j < prev.len() {
                    assert(visible_cats(cats)[i] == prev[i] && visible_cats(cats)[j] == prev[j]);
                } else {
                    assert(visible_cats(cats)[j] == cats.last());
                    assert(visible_cats(cats)[i] == prev[i]);
                    if cats.len() >= 2 {
                        assert(prev[i].id <= prev.last().id <= cats.drop_last().last().id);
                        assert(cats.drop_last().last() == cats[cats.len() - 2]);
                        assert(cats[cats.len() - 2].id < cats.last().id);
                    }
                }
            }
        }
    }
}

proof fn lemma_visible_cats_push(cats: Seq<Category>, c: Category)
    ensures
        visible_cats(cats.push(c)) == visible_cats(cats) + (if c.hidden {
            Seq::<Category>::empty()
        } else {
            seq![c]
        }),
{
    assert(cats.push(c).drop_last() =~= cats);
    assert(cats.push(c).last() == c);
}

impl DiaryDataSqlite {
    /// The mirrored category list.
    pub closed spec fn cats_view(self) -> Seq<Category> {
        self.cats@
    }

    /// Builds a connection around an already-open database: reads the stored
    /// schema version, migrates a version-0 file to the current schema, and
    /// loads the category mirror.
    pub fn open_sqlite_database(connection: rusqlite::Connection) -> (r: Result<
        DiaryDataSqlite,
        DataError,
    >)
        ensures
            r is Ok ==> cats_sorted(r.unwrap().cats_view()),
    {
        let version = version_from_info(&sql_read_version(&connection));
        if version < CURRENT_DB_VERSION {
            match sql_migrate_to_v1(&connection) {
                Ok(()) => {},
                Err(e) => {
                    return Err(DataError::Database(e));
                },
            }
            match sql_insert_version(&connection, 1) {
                Ok(()) => {},
                Err(e) => {
                    return Err(DataError::Database(e));
                },
            }
        }
        let raw = match sql_select_categories(&connection) {
            Ok(raw) => raw,
            Err(e) => {
                return Err(DataError::Database(e));
            },
        };
        let mut cats: Vec<Category> = Vec::new();
        let mut i: usize = 0;
        while i < raw.len()
            invariant
                0 <= i <= raw@.len(),
                cats@.len() == i,
                cats_sorted(cats@),
                i > 0 ==> cats@.len() > 0 && cats@[cats@.len() - 1].id == raw@[i - 1].0,
            decreases raw@.len() - i,
        {
            let (id, name, hidden) = &raw[i];
            if cats.len() > 0 && cats[cats.len() - 1].id >= *id {
                // identifiers are a primary key; a repeat means a corrupt table
                return Err(DataError::CorruptRecord);
            }
            let ghost pre = cats@;
            cats.push(Category { id: *id, name: name.clone(), hidden: *hidden != 0 });
            proof {
                assert forall|p: int, q: int| 0 <= p < q < cats@.len() implies cats@[p].id
                    < cats@[q].id by {
                    if q < cats@.len() - 1 {
                        assert(cats@[p] == pre[p] && cats@[q] == pre[q]);
                    } else if p < cats@.len() - 1 {
                        assert(cats@[p] == pre[p]);
                        assert(pre[p].id <= pre[pre.len() - 1].id);
                    }
                }
            }
            i = i + 1;
        }
        Ok(DiaryDataSqlite { connection, cats })
    }

    /// The stored schema version, read back from the database; an absent or
    /// malformed stamp reads as zero.
    pub fn get_db_version(&self) -> (r: u64) {
        version_from_info(&sql_read_version(&self.connection))
    }

    /// The list of visible habits tracked by the diary, as (name, id) pairs
    /// in stable creation order: ascending identifiers.
    pub fn get_header(&self) -> (r: Vec<(String, i64)>)
        ensures
            r@.len() == visible_cats(self.cats_view()).len(),
            forall|i: int|
                0 <= i < r@.len() ==> (#[trigger] r@[i]).0@ == visible_cats(
                    self.cats_view(),
                )[i].name@ && r@[i].1 == visible_cats(self.cats_view())[i].id,
            cats_sorted(self.cats_view()) ==> forall|i: int, j: int|
                0 <= i < j < r@.len() ==> (#[trigger] r@[i]).1 < (#[trigger] r@[j]).1,
    {
        proof {
            if cats_sorted(self.cats@) {
                lemma_visible_cats_sorted(self.cats@);
            }
        }
        let mut r: Vec<(String, i64)> = Vec::new();
        let mut i: usize = 0;
        while i < self.cats.len()
            invariant
                0 <= i <= self.cats@.len(),
                r@.len() == visible_cats(self.cats@.take(i as int)).len(),
                forall|j: int|
                    0 <= j < r@.len() ==> (#[trigger] r@[j]).0@ == visible_cats(
                        self.cats@.take(i as int),
                    )[j].name@ && r@[j].1 == visible_cats(self.cats@.take(i as int))[j].id,
            decreases self.cats@.len() - i,
        {
            proof {
                assert(self.cats@.take(i as int + 1) =~= self.cats@.take(i as int).push(
                    self.cats@[i as int],
                ));
                lemma_visible_cats_push(self.cats@.take(i as int), self.cats@[i as int]);
            }
            let c = &self.cats[i];
            if !c.hidden {
                r.push((c.name.clone(), c.id));
            }
            i = i + 1;
        }
        proof {
            assert(self.cats@.take(self.cats@.len() as int) =~= self.cats@);
        }
        r
    }

    /// The identifiers of the visible categories, in stable creation order.
    pub fn get_visible_category_ids(&self) -> (r: Vec<i64>)
        ensures
            r@.len() == visible_cats(self.cats_view()).len(),
            forall|i: int|
                0 <= i < r@.len() ==> #[trigger] r@[i] == visible_cats(self.cats_view())[i].id,
    {
        let mut r: Vec<i64> = Vec::new();
        let mut i: usize = 0;
        while i < self.cats.len()
            invariant
                0 <= i <= self.cats@.len(),
                r@.len() == visible_cats(self.cats@.take(i as int)).len(),
                forall|j: int|
                    0 <= j < r@.len() ==> #[trigger] r@[j] == visible_cats(
                        self.cats@.take(i as int),
                    )[j].id,
            decreases self.cats@.len() - i,
        {
            proof {
                assert(self.cats@.take(i as int + 1) =~= self.cats@.take(i as int).push(
                    self.cats@[i as int],
                ));
                lemma_visible_cats_push(self.cats@.take(i as int), self.cats@[i as int]);
            }
            let c = &self.cats[i];
            if !c.hidden {
                r.push(c.id);
            }
            i = i + 1;
        }
        proof {
            assert(self.cats@.take(self.cats@.len() as int) =~= self.cats@);
        }
        r
    }

    /// Adds a category, or unhides a hidden one of that name; an existing
    /// visible category of that name is reported and nothing changes. The
    /// creation order is kept: an added category takes the next identifier,
    /// past all stored ones.
    pub fn add_category(&mut self, name: &String) -> (r: Result<AddCategoryResult, DataError>)
        ensures
            cats_sorted(old(self).cats_view()) ==> cats_sorted(final(self).cats_view()),
            ({
                let fi = first_cat_with_name(old(self).cats_view(), name@);
                &&& r is Err ==> final(self).cats_view() == old(self).cats_view()
                &&& fi == old(self).cats_view().len() && r is Ok ==> {
                    &&& r.unwrap() == AddCategoryResult::AddedNew
                    &&& final(self).cats_view().len() == old(self).cats_view().len() + 1
                    &&& final(self).cats_view().drop_last() == old(self).cats_view()
                    &&& final(self).cats_view().last().name@ == name@
                    &&& final(self).cats_view().last().hidden == false
                    &&& final(self).cats_view().last().id == next_cat_id(old(self).cats_view())
                }
                &&& fi < old(self).cats_view().len() && !old(self).cats_view()[fi].hidden ==> {
                    &&& r == Result::<AddCategoryResult, DataError>::Ok(
                        AddCategoryResult::AlreadyPresent,
                    )
                    &&& final(self).cats_view() == old(self).cats_view()
                }
                &&& fi < old(self).cats_view().len() && old(self).cats_view()[fi].hidden && r
                    is Ok ==> {
                    &&& r.unwrap() == AddCategoryResult::Unhide
                    &&& final(self).cats_view() == old(self).cats_view().update(
                        fi,
                        Category {
                            id: old(self).cats_view()[fi].id,
                            name: old(self).cats_view()[fi].name,
                            hidden: false,
                        },
                    )
                }
            }),
    {
        proof {
            lemma_first_cat_with_name(self.cats@, name@);
        }
        let mut i: usize = 0;
        while i < self.cats.len()
            invariant
                self.cats@ == old(self).cats@,
                self.connection == old(self).connection,
                0 <= i <= self.cats@.len(),
                forall|j: int| 0 <= j < i ==> (#[trigger] self.cats@[j]).name@ != name@,
            decreases self.cats@.len() - i,
        {
            if self.cats[i].name.eq(name) {
                proof {
                    lemma_first_cat_with_name(self.cats@, name@);
                    assert(first_cat_with_name(self.cats@, name@) == i) by {
                        let fi = first_cat_with_name(self.cats@, name@);
                        if fi < i {
                            assert(self.cats@[fi].name@ != name@);
                        }
                        if fi > i {
                            assert(self.cats@[i as int].name@ != name@);
                        }
                    }
                }
                if self.cats[i].hidden {
                    match sql_set_category_hidden(&self.connection, self.cats[i].id, false) {
                        Ok(()) => {},
                        Err(e) => {
                            return Err(DataError::Database(e));
                        },
                    }
                    let id = self.cats[i].id;
                    let kept_name = self.cats[i].name.clone();
                    self.cats[i] = Category { id, name: kept_name, hidden: false };
                    proof {
                        assert(self.cats@[i as int].name@ == name@);
                        assert(self.cats@ =~= old(self).cats@.update(
                            i as int,
                            Category {
                                id: old(self).cats@[i as int].id,
                                name: old(self).cats@[i as int].name,
                                hidden: false,
                            },
                        ));
                    }
                    return Ok(AddCategoryResult::Unhide);
                } else {
                    return Ok(AddCategoryResult::AlreadyPresent);
                }
            }
            i = i + 1;
        }
        proof {
            lemma_first_cat_with_name(self.cats@, name@);
            let fi = first_cat_with_name(self.cats@, name@);
            assert(fi == self.cats@.len()) by {
                if fi < self.cats@.len() {
                    assert(self.cats@[fi].name@ == name@);
                }
            }
        }
        let id = match next_cat_id_exec(&self.cats) {
            Some(id) => id,
            None => {
                return Err(DataError::CorruptRecord);
            },
        };
        let now = now_timestamp();
        match sql_insert_category(&self.connection, id, name, now) {
            Ok(()) => {},
            Err(e) => {
                return Err(DataError::Database(e));
            },
        }
        self.cats.push(Category { id, name: name.clone(), hidden: false });
        proof {
            assert(self.cats@.drop_last() =~= old(self).cats@);
            if cats_sorted(old(self).cats@) {
                assert forall|p: int, q: int| 0 <= p < q < self.cats@.len() implies self.cats@[p].id
                    < self.cats@[q].id by {
                    if q == self.cats@.len() - 1 {
                        lemma_next_cat_id_ge(old(self).cats@, p);
                    } else {
                        assert(self.cats@[p] == old(self).cats@[p]);
                        assert(self.cats@[q] == old(self).cats@[q]);
                    }
                }
            }
        }
        Ok(AddCategoryResult::AddedNew)
    }

    /// Hides a category by name; hiding keeps the category and all history,
    /// and the creation order.
    pub fn hide_category(&mut self, name: &String) -> (r: Result<HideCategoryResult, DataError>)
        ensures
            cats_sorted(old(self).cats_view()) ==> cats_sorted(final(self).cats_view()),
            ({
                let fi = first_cat_with_name(old(self).cats_view(), name@);
                &&& r is Err ==> final(self).cats_view() == old(self).cats_view()
                &&& fi == old(self).cats_view().len() ==> {
                    &&& r == Result::<HideCategoryResult, DataError>::Ok(
                        HideCategoryResult::NonExistingCategory,
                    )
                    &&& final(self).cats_view() == old(self).cats_view()
                }
                &&& fi < old(self).cats_view().len() && old(self).cats_view()[fi].hidden ==> {
                    &&& r == Result::<HideCategoryResult, DataError>::Ok(
                        HideCategoryResult::AlreadyHidden,
                    )
                    &&& final(self).cats_view() == old(self).cats_view()
                }
                &&& fi < old(self).cats_view().len() && !old(self).cats_view()[fi].hidden && r
                    is Ok ==> {
                    &&& r.unwrap() == HideCategoryResult::Hidden
                    &&& final(self).cats_view() == old(self).cats_view().update(
                        fi,
                        Category {
                            id: old(self).cats_view()[fi].id,
                            name: old(self).cats_view()[fi].name,
                            hidden: true,
                        },
                    )
                }
            }),
    {
        proof {
            lemma_first_cat_with_name(self.cats@, name@);
        }
        let mut i: usize = 0;
        while i < self.cats.len()
            invariant
                self.cats@ == old(self).cats@,
                self.connection == old(self).connection,
                0 <= i <= self.cats@.len(),
                forall|j: int| 0 <= j < i ==> (#[trigger] self.cats@[j]).name@ != name@,
            decreases self.cats@.len() - i,
        {
            if self.cats[i].name.eq(name) {
                proof {
                    lemma_first_cat_with_name(self.cats@, name@);
                    assert(first_cat_with_name(self.cats@, name@) == i) by {
                        let fi = first_cat_with_name(self.cats@, name@);
                        if fi < i {
                            assert(self.cats@[fi].name@ != name@);
                        }
                        if fi > i {
                            assert(self.cats@[i as int].name@ != name@);
                        }
                    }
                }
                if self.cats[i].hidden {
                    return Ok(HideCategoryResult::AlreadyHidden);
                } else {
                    match sql_set_category_hidden(&self.connection, self.cats[i].id, true) {
                        Ok(()) => {},
                        Err(e) => {
                            return Err(DataError::Database(e));
                        },
                    }
                    let id = self.cats[i].id;
                    let kept_name = self.cats[i].name.clone();
                    self.cats[i] = Category { id, name: kept_name, hidden: true };
                    proof {
                        assert(self.cats@ =~= old(self).cats@.update(
                            i as int,
                            Category {
                                id: old(self).cats@[i as int].id,
                                name: old(self).cats@[i as int].name,
                                hidden: true,
                            },
                        ));
                    }
                    return Ok(HideCategoryResult::Hidden);
                }
            }
            i = i + 1;
        }
        proof {
            lemma_first_cat_with_name(self.cats@, name@);
            let fi = first_cat_with_name(self.cats@, name@);
            assert(fi == self.cats@.len()) by {
                if fi < self.cats@.len() {
                    assert(self.cats@[fi].name@ == name@);
                }
            }
        }
        Ok(HideCategoryResult::NonExistingCategory)
    }
}

/// Any category's successor identifier stays below the next free one.
proof fn lemma_next_cat_id_ge(cats: Seq<Category>, i: int)
    requires
        0 <= i < cats.len(),
    ensures
        next_cat_id(cats) >= cats[i].id + 1,
    decreases cats.len(),
{
    if i == cats.len() - 1 {
    } else {
        lemma_next_cat_id_ge(cats.drop_last(), i);
    }
}

/// One past the largest category identifier, at least one; nothing when that
/// would not fit the identifier type.
fn next_cat_id_exec(cats: &Vec<Category>) -> (r: Option<i64>)
    ensures
        r is Some ==> r.unwrap() == next_cat_id(cats@),
        r is None ==> next_cat_id(cats@) > i64::MAX,
{
    let mut r: i64 = 1;
    let mut i: usize = 0;
    while i < cats.len()
        invariant
            0 <= i <= cats@.len(),
            r == next_cat_id(cats@.take(i as int)),
        decreases cats@.len() - i,
    {
        proof {
            assert(cats@.take(i as int + 1).drop_last() =~= cats@.take(i as int));
            assert(cats@.take(i as int + 1).last() == cats@[i as int]);
        }
        let c = &cats[i];
        if c.id >= r {
            if c.id == i64::MAX {
                proof {
                    lemma_next_cat_id_ge(cats@, i as int);
                }
                return None;
            }
            r = c.id + 1;
        }
        i = i + 1;
    }
    proof {
        assert(cats@.take(cats@.len() as int) =~= cats@);
    }
    Some(r)
}

} // verus!

verus! {

/// Copies an identifier vector element by element.
fn copy_ids(v: &Vec<i64>) -> (r: Vec<i64>)
    ensures
        r@ == v@,
{
    let mut r: Vec<i64> = Vec::new();
    let mut i: usize = 0;
    while i < v.len()
        invariant
            0 <= i <= v@.len(),
            r@ == v@.take(i as int),
        decreases v@.len() - i,
    {
        r.push(v[i]);
        proof {
            assert(r@ =~= v@.take(i as int + 1));
        }
        i = i + 1;
    }
    proof {
        assert(r@ =~= v@);
    }
    r
}

/// Whether any category of the list carries this identifier.
fn has_cat_id_exec(cats: &Vec<Category>, id: i64) -> (r: bool)
    ensures
        r == has_cat_id(cats@, id),
{
    let mut i: usize = 0;
    while i < cats.len()
        invariant
            0 <= i <= cats@.len(),
            forall|j: int| 0 <= j < i ==> (#[trigger] cats@[j]).id != id,
        decreases cats@.len() - i,
    {
        if cats[i].id == id {
            return true;
        }
        i = i + 1;
    }
    false
}

/// The outcome an update reports, decided by how many prior date entries
/// the transaction deleted: a fresh date adds, a tracked one is replaced.
pub fn replace_outcome(deleted: u64) -> (r: SuccessfulUpdate)
    ensures
        r == SuccessfulUpdate::AddedNew <==> deleted == 0,
        r == SuccessfulUpdate::ReplacedExisting <==> deleted > 0,
{
    if deleted == 0 {
        SuccessfulUpdate::AddedNew
    } else {
        SuccessfulUpdate::ReplacedExisting
    }
}

/// Whether some item of an update batch names an unknown category.
pub open spec fn batch_names_unknown(items: Seq<(Date, Vec<i64>)>, cats: Seq<Category>) -> bool {
    exists|k: int, j: int|
        0 <= k < items.len() && 0 <= j < items[k].1@.len() && !has_cat_id(cats, items[k].1@[j])
}

impl DiaryDataSqlite {
    /// Replaces the stored association sets of the given dates inside one
    /// transaction: for each item the date entry is deleted and freshly
    /// recreated with exactly the supplied categories, never merged. The
    /// result reports whether any prior entry was replaced. Items naming a
    /// category the diary does not hold are rejected before anything runs.
    fn update_data_internal(&mut self, items: &Vec<(Date, Vec<i64>)>) -> (r: Result<
        SuccessfulUpdate,
        DataError,
    >)
        requires
            forall|k: int| 0 <= k < items@.len() ==> (#[trigger] items@[k]).0.valid(),
        ensures
            final(self).cats_view() == old(self).cats_view(),
            batch_names_unknown(items@, old(self).cats_view()) ==> r is Err,
            r is Ok ==> !batch_names_unknown(items@, old(self).cats_view()),
    {
        let mut k: usize = 0;
        while k < items.len()
            invariant
                self.cats@ == old(self).cats@,
                self.connection == old(self).connection,
                0 <= k <= items@.len(),
                forall|kk: int, j: int|
                    0 <= kk < k && 0 <= j < items@[kk].1@.len() ==> has_cat_id(
                        self.cats@,
                        #[trigger] items@[kk].1@[j],
                    ),
            decreases items@.len() - k,
        {
            let ids = &items[k].1;
            let mut j: usize = 0;
            while j < ids.len()
                invariant
                    self.cats@ == old(self).cats@,
                    0 <= k < items@.len(),
                    ids == &items@[k as int].1,
                    0 <= j <= ids@.len(),
                    forall|jj: int|
                        0 <= jj < j ==> has_cat_id(self.cats@, #[trigger] ids@[jj]),
                decreases ids@.len() - j,
            {
                if !has_cat_id_exec(&self.cats, ids[j]) {
                    proof {
                        assert(batch_names_unknown(items@, old(self).cats@));
                    }
                    return Err(DataError::UnknownCategoryId { id: ids[j] });
                }
                j = j + 1;
            }
            k = k + 1;
        }
        match sql_begin(&self.connection) {
            Ok(()) => {},
            Err(e) => {
                return Err(DataError::Database(e));
            },
        }
        let mut deleted: u64 = 0;
        let mut k: usize = 0;
        while k < items.len()
            invariant
                self.cats@ == old(self).cats@,
                self.connection == old(self).connection,
                0 <= k <= items@.len(),
                forall|kk: int| 0 <= kk < items@.len() ==> (#[trigger] items@[kk]).0.valid(),
                !batch_names_unknown(items@, old(self).cats@),
            decreases items@.len() - k,
        {
            let (date, ids) = &items[k];
            let ts = date_to_timestamp(*date);
            match sql_delete_date_entry(&self.connection, ts) {
                Ok(n) => {
                    if n > 0 {
                        if deleted < u64::MAX {
                            deleted = deleted + 1;
                        }
                    }
                },
                Err(e) => {
                    return Err(DataError::Database(e));
                },
            }
            let now = now_timestamp();
            match sql_insert_date_entry(&self.connection, ts, now) {
                Ok(()) => {},
                Err(e) => {
                    return Err(DataError::Database(e));
                },
            }
            let mut j: usize = 0;
            while j < ids.len()
                invariant
                    self.cats@ == old(self).cats@,
                    self.connection == old(self).connection,
                    0 <= j <= ids@.len(),
                decreases ids@.len() - j,
            {
                match sql_insert_entry_category(&self.connection, ts, ids[j]) {
                    Ok(()) => {},
                    Err(e) => {
                        return Err(DataError::Database(e));
                    },
                }
                j = j + 1;
            }
            k = k + 1;
        }
        match sql_commit(&self.connection) {
            Ok(()) => {},
            Err(e) => {
                return Err(DataError::Database(e));
            },
        }
        Ok(replace_outcome(deleted))
    }

    /// Replaces one date's association set; `AddedNew` when the date was
    /// untracked before, `ReplacedExisting` when a prior entry was replaced.
    pub fn update_data(&mut self, date: Date, new_row: &Vec<i64>) -> (r: Result<
        SuccessfulUpdate,
        DataError,
    >)
        requires
            date.valid(),
        ensures
            final(self).cats_view() == old(self).cats_view(),
            r is Ok ==> forall|j: int|
                0 <= j < new_row@.len() ==> has_cat_id(
                    old(self).cats_view(),
                    #[trigger] new_row@[j],
                ),
    {
        let mut items: Vec<(Date, Vec<i64>)> = Vec::new();
        items.push((date, copy_ids(new_row)));
        let r = self.update_data_internal(&items);
        proof {
            if r is Ok {
                assert forall|j: int| 0 <= j < new_row@.len() implies has_cat_id(
                    old(self).cats_view(),
                    #[trigger] new_row@[j],
                ) by {
                    assert(items@[0].1@[j] == new_row@[j]);
                    if !has_cat_id(old(self).cats_view(), new_row@[j]) {
                        assert(batch_names_unknown(items@, old(self).cats_view()));
                    }
                }
            }
        }
        r
    }

    /// Applies all items as one transaction; any failure aborts the batch.
    pub fn update_data_batch(&mut self, items: &Vec<(Date, Vec<i64>)>) -> (r: Result<
        (),
        DataError,
    >)
        requires
            forall|k: int| 0 <= k < items@.len() ==> (#[trigger] items@[k]).0.valid(),
        ensures
            final(self).cats_view() == old(self).cats_view(),
            batch_names_unknown(items@, old(self).cats_view()) ==> r is Err,
    {
        match self.update_data_internal(items) {
            Ok(_) => Ok(()),
            Err(e) => Err(e),
        }
    }

    /// Whether the diary tracks no date at all.
    pub fn is_empty(&self) -> (r: Result<bool, DataError>) {
        match sql_count_date_entries(&self.connection) {
            Ok(n) => Ok(n == 0),
            Err(e) => Err(DataError::Database(e)),
        }
    }

    /// The earliest and latest tracked date; an error when the diary is empty.
    pub fn get_date_range(&self) -> (r: Result<(Date, Date), DataError>)
        ensures
            r is Ok ==> r.unwrap().0.valid() && r.unwrap().1.valid() && r.unwrap().0@
                <= r.unwrap().1@,
    {
        let bounds = match sql_min_max_date(&self.connection) {
            Ok(b) => b,
            Err(e) => {
                return Err(DataError::Database(e));
            },
        };
        let (lo_ts, hi_ts) = match bounds {
            Some(b) => b,
            None => {
                return Err(DataError::EmptyDiary);
            },
        };
        let lo = match timestamp_to_date(lo_ts) {
            Some(d) => d,
            None => {
                return Err(DataError::CorruptRecord);
            },
        };
        let hi = match timestamp_to_date(hi_ts) {
            Some(d) => d,
            None => {
                return Err(DataError::CorruptRecord);
            },
        };
        proof {
            vstd::arithmetic::div_mod::lemma_div_is_ordered(lo_ts as int, hi_ts as int, 86400);
        }
        Ok((lo, hi))
    }

    /// The dates between `from` (or the earliest tracked date) and `until`,
    /// both inclusive, that the diary does not track, ascending. An empty
    /// diary without an explicit lower bound has no gaps to report; with one,
    /// every date of the span is missing.
    pub fn get_missing_dates(&self, from: Option<Date>, until: Date) -> (r: Result<
        Vec<Date>,
        DataError,
    >)
        requires
            until.valid(),
            from is Some ==> from.unwrap().valid(),
        ensures
            r is Ok ==> forall|i: int| 0 <= i < r.unwrap()@.len() ==> (#[trigger] r.unwrap()@[i]).valid(),
            r is Ok ==> forall|i: int, j: int|
                0 <= i < j < r.unwrap()@.len() ==> r.unwrap()@[i]@ < r.unwrap()@[j]@,
            r is Ok ==> forall|i: int|
                0 <= i < r.unwrap()@.len() ==> (#[trigger] r.unwrap()@[i])@ <= until@,
            r is Ok && from is Some ==> forall|i: int|
                0 <= i < r.unwrap()@.len() ==> from.unwrap()@ <= (#[trigger] r.unwrap()@[i])@,
    {
        let lo: Date = match from {
            Some(f) => f,
            None => {
                match self.is_empty() {
                    Ok(true) => {
                        return Ok(Vec::new());
                    },
                    Ok(false) => {},
                    Err(e) => {
                        return Err(e);
                    },
                }
                let bounds = match sql_min_max_date(&self.connection) {
                    Ok(b) => b,
                    Err(e) => {
                        return Err(DataError::Database(e));
                    },
                };
                match bounds {
                    Some((lo_ts, _)) => {
                        match timestamp_to_date(lo_ts) {
                            Some(d) => d,
                            None => {
                                return Err(DataError::CorruptRecord);
                            },
                        }
                    },
                    None => {
                        return Ok(Vec::new());
                    },
                }
            },
        };
        let present_ts = match sql_select_dates_in_range(
            &self.connection,
            date_to_timestamp(lo),
            date_to_timestamp(until),
        ) {
            Ok(v) => v,
            Err(e) => {
                return Err(DataError::Database(e));
            },
        };
        let mut present: Vec<u32> = Vec::new();
        let mut i: usize = 0;
        while i < present_ts.len()
            invariant
                0 <= i <= present_ts@.len(),
            decreases present_ts@.len() - i,
        {
            match timestamp_to_date(present_ts[i]) {
                Some(d) => {
                    present.push(d.day_value());
                },
                None => {},
            }
            i = i + 1;
        }
        Ok(missing_days(&present, lo.day_value(), until.day_value()))
    }

    /// Counts, for each visible category, how many tracked dates within
    /// `[from, to]` have it active.
    pub fn calculate_data_counts(&self, from: Date, to: Date) -> (r: Result<Vec<i64>, DataError>)
        requires
            from.valid(),
            to.valid(),
        ensures
            r is Ok ==> r.unwrap()@.len() == visible_cats(self.cats_view()).len(),
            r is Ok ==> forall|c: int| 0 <= c < r.unwrap()@.len() ==> (#[trigger] r.unwrap()@[c]) >= 0,
    {
        let ids = self.get_visible_category_ids();
        let from_ts = date_to_timestamp(from);
        let to_ts = date_to_timestamp(to);
        let mut counts: Vec<i64> = Vec::new();
        let mut i: usize = 0;
        while i < ids.len()
            invariant
                0 <= i <= ids@.len(),
                counts@.len() == i,
                forall|c: int| 0 <= c < i ==> (#[trigger] counts@[c]) >= 0,
            decreases ids@.len() - i,
        {
            match sql_count_category_in_range(&self.connection, ids[i], from_ts, to_ts) {
                Ok(n) => {
                    counts.push(n);
                },
                Err(e) => {
                    return Err(DataError::Database(e));
                },
            }
            i = i + 1;
        }
        Ok(counts)
    }

    /// Calculates the occurrences of all visible habits over every supplied
    /// date range, each handed as `(later bound, earlier bound)`.
    pub fn calculate_data_counts_per_iter(&self, date_ranges: &Vec<(Date, Date)>) -> (r: Result<
        Vec<Vec<i64>>,
        DataError,
    >)
        requires
            forall|i: int|
                0 <= i < date_ranges@.len() ==> (#[trigger] date_ranges@[i]).0.valid()
                    && date_ranges@[i].1.valid(),
        ensures
            r is Ok ==> r.unwrap()@.len() == date_ranges@.len(),
            r is Ok ==> forall|i: int|
                0 <= i < r.unwrap()@.len() ==> (#[trigger] r.unwrap()@[i])@.len() == visible_cats(
                    self.cats_view(),
                ).len(),
    {
        let mut r: Vec<Vec<i64>> = Vec::new();
        let mut i: usize = 0;
        while i < date_ranges.len()
            invariant
                0 <= i <= date_ranges@.len(),
                r@.len() == i,
                forall|k: int|
                    0 <= k < date_ranges@.len() ==> (#[trigger] date_ranges@[k]).0.valid()
                        && date_ranges@[k].1.valid(),
                forall|k: int|
                    0 <= k < i ==> (#[trigger] r@[k])@.len() == visible_cats(
                        self.cats_view(),
                    ).len(),
            decreases date_ranges@.len() - i,
        {
            let (later, earlier) = date_ranges[i];
            match self.calculate_data_counts(earlier, later) {
                Ok(counts) => {
                    r.push(counts);
                },
                Err(e) => {
                    return Err(e);
                },
            }
            i = i + 1;
        }
        Ok(r)
    }
}

} // verus!

verus! {

/// Whether the bytes spell the marker the row query emits for a tracked
/// date with no visible categories.
fn is_empty_marker(s: &String) -> (r: bool)
    ensures
        r == (vstd::utf8::encode_utf8(s@) == seq![69u8, 77u8, 80u8, 84u8, 89u8]),
{
    let b = s.as_str().as_bytes();
    let r = b.len() == 5 && b[0] == 69 && b[1] == 77 && b[2] == 80 && b[3] == 84 && b[4] == 89;
    proof {
        if r {
            assert(b@ =~= seq![69u8, 77u8, 80u8, 84u8, 89u8]);
        }
        if b@ == seq![69u8, 77u8, 80u8, 84u8, 89u8] {
            assert(b@[0] == 69u8 && b@[1] == 77u8 && b@[2] == 80u8 && b@[3] == 84u8 && b@[4]
                == 89u8);
        }
    }
    r
}

/// One step of the identifier-list grammar, reading one digit run: `acc` and
/// `digits` carry the value and length of the run read so far.
pub open spec fn parse_ids_rec(b: Seq<u8>, acc: int, digits: int) -> Option<Seq<int>>
    decreases b.len(),
{
    if b.len() == 0 {
        if digits == 0 {
            None
        } else {
            Some(seq![acc])
        }
    } else if b.first() == 59u8 {
        if digits == 0 {
            None
        } else {
            match parse_ids_rec(b.drop_first(), 0, 0) {
                None => None,
                Some(rest) => Some(seq![acc] + rest),
            }
        }
    } else if 48 <= b.first() <= 57 {
        if digits >= 18 {
            None
        } else {
            parse_ids_rec(b.drop_first(), acc * 10 + (b.first() - 48), digits + 1)
        }
    } else {
        None
    }
}

/// The identifier list a signature string denotes: `;`-separated nonempty
/// runs of at most eighteen decimal digits, each read as its value; anything
/// else denotes nothing.
pub open spec fn spec_id_list(b: Seq<u8>) -> Option<Seq<int>> {
    parse_ids_rec(b, 0, 0)
}

/// Splits a `;`-delimited list of decimal category identifiers: exactly the
/// strings [`spec_id_list`] admits are accepted, and the accepted values are
/// the denoted ones.
fn parse_id_list(s: &String) -> (r: Option<Vec<i64>>)
    ensures
        r is Some <==> spec_id_list(vstd::utf8::encode_utf8(s@)) is Some,
        r is Some ==> r.unwrap()@.map_values(|x: i64| x as int) == spec_id_list(
            vstd::utf8::encode_utf8(s@),
        ).unwrap(),
        r is Some ==> r.unwrap()@.len() >= 1,
        r is Some ==> forall|j: int| 0 <= j < r.unwrap()@.len() ==> #[trigger] r.unwrap()@[j] >= 0,
{
    let b = s.as_str().as_bytes();
    let mut ids: Vec<i64> = Vec::new();
    let mut acc: i64 = 0;
    let mut digits: usize = 0;
    let mut i: usize = 0;
    proof {
        assert(b@.skip(0) =~= b@);
        assert(ids@.map_values(|x: i64| x as int) =~= Seq::<int>::empty());
        assert(pow10(0) == 1 && pow10(18) == 0xde0b6b3a7640000) by {
            reveal_with_fuel(pow10, 20);
        }
        lemma_pow10_le(0, 18);
    }
    while i < b.len()
        invariant
            b@ == vstd::utf8::encode_utf8(s@),
            0 <= i <= b@.len(),
            digits <= 18,
            0 <= acc < pow10(digits as int),
            pow10(digits as int) <= pow10(18),
            pow10(18) == 0xde0b6b3a7640000,
            forall|j: int| 0 <= j < ids@.len() ==> #[trigger] ids@[j] >= 0,
            spec_id_list(b@) == (match parse_ids_rec(b@.skip(i as int), acc as int, digits as int) {
                None => None::<Seq<int>>,
                Some(rest) => Some(ids@.map_values(|x: i64| x as int) + rest),
            }),
        decreases b@.len() - i,
    {
        proof {
            assert(b@.skip(i as int).first() == b@[i as int]);
            assert(b@.skip(i as int).drop_first() =~= b@.skip(i as int + 1));
        }
        let c = b[i];
        if c == 59 {
            if digits == 0 {
                return None;
            }
            let ghost pre_ids = ids@;
            ids.push(acc);
            acc = 0;
            digits = 0;
            proof {
                assert(pow10(0) == 1) by {
                    reveal_with_fuel(pow10, 1);
                }
                assert(ids@.map_values(|x: i64| x as int) =~= pre_ids.map_values(
                    |x: i64| x as int,
                ) + seq![ids@[ids@.len() - 1] as int]);
            }
        } else if c >= 48 && c <= 57 {
            if digits >= 18 {
                return None;
            }
            proof {
                lemma_pow10_le(digits as int, 17);
                assert(pow10(17) == 0x16345785d8a0000) by {
                    reveal_with_fuel(pow10, 20);
                }
                assert(pow10(digits as int + 1) == 10 * pow10(digits as int));
                lemma_pow10_le(digits as int + 1, 18);
            }
            acc = acc * 10 + ((c - 48) as i64);
            digits = digits + 1;
        } else {
            return None;
        }
        i = i + 1;
    }
    proof {
        assert(b@.skip(b@.len() as int) =~= Seq::<u8>::empty());
    }
    if digits == 0 {
        return None;
    }
    let ghost pre_ids = ids@;
    ids.push(acc);
    proof {
        assert(ids@.map_values(|x: i64| x as int) =~= pre_ids.map_values(|x: i64| x as int)
            + seq![acc as int]);
    }
    Some(ids)
}

/// Lays the rows returned for a span out day by day, descending from
/// `until`: `Some` with the stored identifiers where a day was tracked,
/// `None` where it was not.
pub fn fill_rows(data: &Vec<(u32, Vec<i64>)>, from: Date, until: Date) -> (r: Vec<
    Option<Vec<i64>>,
>)
    requires
        from.valid(),
        until.valid(),
        forall|i: int, j: int| 0 <= i < j < data@.len() ==> data@[i].0 > data@[j].0,
        forall|i: int| 0 <= i < data@.len() ==> from@ <= (#[trigger] data@[i]).0 <= until@,
    ensures
        until@ < from@ ==> r@.len() == 0,
        from@ <= until@ ==> r@.len() == until@ - from@ + 1,
        forall|i: int|
            0 <= i < r@.len() ==> ((#[trigger] r@[i]) is Some <==> exists|k: int|
                0 <= k < data@.len() && (#[trigger] data@[k]).0 == until@ - i),
        forall|i: int, k: int|
            0 <= i < r@.len() && 0 <= k < data@.len() && (#[trigger] data@[k]).0 == until@ - i
                ==> (#[trigger] r@[i]).unwrap()@ == data@[k].1@,
{
    let mut r: Vec<Option<Vec<i64>>> = Vec::new();
    if until.lt(from) {
        return r;
    }
    proof {
        crate::date::lemma_days_before_year_bounds(10000);
    }
    let fromv = from.day_value();
    let untilv = until.day_value();
    let span = (untilv - fromv) as usize + 1;
    let mut p: usize = 0;
    let mut i: usize = 0;
    while i < span
        invariant
            fromv as int == from@,
            untilv as int == until@,
            fromv <= untilv,
            span == untilv - fromv + 1,
            r@.len() == i <= span,
            0 <= p <= data@.len(),
            forall|k: int, j: int| 0 <= k < j < data@.len() ==> data@[k].0 > data@[j].0,
            forall|k: int| 0 <= k < data@.len() ==> fromv <= (#[trigger] data@[k]).0 <= untilv,
            forall|k: int| 0 <= k < p ==> (#[trigger] data@[k]).0 > untilv - i,
            forall|k: int| p <= k < data@.len() ==> (#[trigger] data@[k]).0 <= untilv - i,
            forall|ii: int|
                0 <= ii < i ==> ((#[trigger] r@[ii]) is Some <==> exists|k: int|
                    0 <= k < data@.len() && (#[trigger] data@[k]).0 == untilv - ii),
            forall|ii: int, k: int|
                0 <= ii < i && 0 <= k < data@.len() && (#[trigger] data@[k]).0 == untilv - ii ==> (
                #[trigger] r@[ii]).unwrap()@ == data@[k].1@,
        decreases span - i,
    {
        let target = untilv - (i as u32);
        if p < data.len() && data[p].0 == target {
            let ids = copy_ids(&data[p].1);
            r.push(Some(ids));
            proof {
                assert forall|k: int|
                    0 <= k < data@.len() && (#[trigger] data@[k]).0 == untilv - i implies k
                    == p as int by {
                    if k < p {
                        assert(data@[k].0 > untilv - i);
                    }
                    if k > p {
                        assert(data@[p as int].0 > data@[k].0);
                    }
                }
            }
            p = p + 1;
        } else {
            r.push(None);
            proof {
                assert forall|k: int| 0 <= k < data@.len() implies (#[trigger] data@[k]).0
                    != untilv - i by {
                    if k < p {
                        assert(data@[k].0 > untilv - i);
                    } else if k == p {
                    } else {
                        assert(data@[p as int].0 > data@[k].0);
                    }
                }
            }
        }
        i = i + 1;
    }
    r
}

impl DiaryDataSqlite {
    /// The tracked data of every day from `until` down to `from`, both
    /// inclusive and descending: `Some` with the visible active category
    /// identifiers where the day is tracked (empty when tracked with none),
    /// `None` where it is not.
    pub fn get_rows(&self, from: Date, until: Date) -> (r: Result<
        Vec<Option<Vec<i64>>>,
        DataError,
    >)
        requires
            from.valid(),
            until.valid(),
        ensures
            r is Ok && until@ < from@ ==> r.unwrap()@.len() == 0,
            r is Ok && from@ <= until@ ==> r.unwrap()@.len() == until@ - from@ + 1,
    {
        let raw = match sql_select_rows_grouped(
            &self.connection,
            date_to_timestamp(from),
            date_to_timestamp(until),
        ) {
            Ok(v) => v,
            Err(e) => {
                return Err(DataError::Database(e));
            },
        };
        let mut data: Vec<(u32, Vec<i64>)> = Vec::new();
        let mut i: usize = 0;
        while i < raw.len()
            invariant
                0 <= i <= raw@.len(),
                forall|k: int, j: int| 0 <= k < j < data@.len() ==> data@[k].0 > data@[j].0,
                forall|k: int| 0 <= k < data@.len() ==> from@ <= (#[trigger] data@[k]).0 <= until@,
            decreases raw@.len() - i,
        {
            let day = match timestamp_to_date(raw[i].0) {
                Some(d) => d,
                None => {
                    return Err(DataError::CorruptRecord);
                },
            };
            if day.lt(from) || until.lt(day) {
                return Err(DataError::CorruptRecord);
            }
            if data.len() > 0 && data[data.len() - 1].0 <= day.day_value() {
                return Err(DataError::CorruptRecord);
            }
            let ids: Vec<i64> = if is_empty_marker(&raw[i].1) {
                Vec::new()
            } else {
                match parse_id_list(&raw[i].1) {
                    Some(ids) => ids,
                    None => {
                        return Err(DataError::CorruptRecord);
                    },
                }
            };
            let ghost prev = data@;
            data.push((day.day_value(), ids));
            proof {
                assert forall|k: int, j: int| 0 <= k < j < data@.len() implies data@[k].0
                    > data@[j].0 by {
                    if j < data@.len() - 1 {
                        assert(prev[k].0 > prev[j].0);
                    } else if k < data@.len() - 1 {
                        assert(prev[k].0 >= prev[prev.len() - 1].0);
                    }
                }
            }
            i = i + 1;
        }
        Ok(fill_rows(&data, from, until))
    }

    /// The tracked data of one date, if that date is tracked.
    pub fn get_row(&self, date: Date) -> (r: Result<Option<Vec<i64>>, DataError>)
        requires
            date.valid(),
    {
        match self.get_rows(date, date) {
            Ok(mut rows) => {
                match rows.pop() {
                    Some(row) => Ok(row),
                    None => Ok(None),
                }
            },
            Err(e) => Err(e),
        }
    }

    /// Groups the tracked dates of `[from_or_epoch, until]` by their exact
    /// set of active visible categories and returns the groups by descending
    /// occurrence count, at most `max_count` many. Each group's count is at
    /// least one, each signature holds at least one category identifier, and
    /// hidden categories never appear.
    pub fn get_most_frequent_daily_data(
        &self,
        from: &Option<Date>,
        until: Date,
        max_count: Option<usize>,
    ) -> (r: Result<Vec<(Vec<i64>, i64)>, DataError>)
        requires
            until.valid(),
            from is Some ==> from.unwrap().valid(),
        ensures
            r is Ok ==> forall|i: int, j: int|
                0 <= i < j < r.unwrap()@.len() ==> (#[trigger] r.unwrap()@[i]).1 >= (
                #[trigger] r.unwrap()@[j]).1,
            r is Ok ==> forall|i: int|
                0 <= i < r.unwrap()@.len() ==> (#[trigger] r.unwrap()@[i]).1 >= 1,
            r is Ok ==> forall|i: int|
                0 <= i < r.unwrap()@.len() ==> (#[trigger] r.unwrap()@[i]).0@.len() >= 1,
            r is Ok ==> forall|i: int, j: int|
                0 <= i < r.unwrap()@.len() && 0 <= j < r.unwrap()@[i].0@.len() ==> (
                #[trigger] r.unwrap()@[i].0@[j]) >= 0,
            r is Ok && max_count is Some ==> r.unwrap()@.len() <= max_count.unwrap(),
    {
        let from_ts: i64 = match from {
            Some(f) => date_to_timestamp(*f),
            None => 0,
        };
        let until_ts = date_to_timestamp(until);
        let limit: i64 = match max_count {
            Some(c) => {
                if (c as u64) > (i64::MAX as u64) {
                    i64::MAX
                } else {
                    c as i64
                }
            },
            None => i64::MAX,
        };
        let raw = match sql_select_signature_counts(&self.connection, from_ts, until_ts, limit) {
            Ok(v) => v,
            Err(e) => {
                return Err(DataError::Database(e));
            },
        };
        let mut r: Vec<(Vec<i64>, i64)> = Vec::new();
        let mut i: usize = 0;
        while i < raw.len()
            invariant
                0 <= i <= raw@.len(),
                r@.len() == i,
                forall|k: int| 0 <= k < i ==> (#[trigger] r@[k]).1 == raw@[k].1,
                forall|k: int| 0 <= k < i ==> (#[trigger] r@[k]).0@.len() >= 1,
                forall|k: int, j: int|
                    0 <= k < i && 0 <= j < r@[k].0@.len() ==> (#[trigger] r@[k].0@[j]) >= 0,
            decreases raw@.len() - i,
        {
            let ids = match parse_id_list(&raw[i].0) {
                Some(ids) => ids,
                None => {
                    return Err(DataError::CorruptRecord);
                },
            };
            r.push((ids, raw[i].1));
            i = i + 1;
        }
        Ok(r)
    }
}

/// Creates the current schema in an open database and seeds one visible
/// category per header entry, in order, with identifiers counted from one.
pub fn initialize_sqlite_database(conn: &rusqlite::Connection, headers: &Vec<String>) -> (r: Result<
    (),
    DataError,
>)
    requires
        headers@.len() < 0x7fffffffffffffff,
{
    match sql_create_schema(conn) {
        Ok(()) => {},
        Err(e) => {
            return Err(DataError::Database(e));
        },
    }
    match sql_insert_version(conn, 1) {
        Ok(()) => {},
        Err(e) => {
            return Err(DataError::Database(e));
        },
    }
    let now = now_timestamp();
    let mut i: usize = 0;
    while i < headers.len()
        invariant
            0 <= i <= headers@.len(),
            headers@.len() < 0x7fffffffffffffff,
        decreases headers@.len() - i,
    {
        match sql_insert_category(conn, (i as i64) + 1, &headers[i], now) {
            Ok(()) => {},
            Err(e) => {
                return Err(DataError::Database(e));
            },
        }
        i = i + 1;
    }
    Ok(())
}

} // verus!

verus! {

/// Creates a new relational diary in an open database, using the prescribed
/// headers.
pub fn create_new_datafile(conn: &rusqlite::Connection, headers: &Vec<String>) -> (r: Result<
    (),
    DataError,
>)
    requires
        headers@.len() < 0x7fffffffffffffff,
{
    initialize_sqlite_database(conn, headers)
}

} // verus!
