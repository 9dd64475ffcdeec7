use genee::datafile::{AddCategoryResult, DataError, HideCategoryResult, SuccessfulUpdate};
use genee::sqlite_datafile::{
    initialize_sqlite_database, DiaryDataSqlite, CURRENT_DB_VERSION,
};
use genee::Date;
use rusqlite::Connection;

fn d(y: u32, m: u32, day: u32) -> Date {
    Date::from_ymd(y, m, day)
}

fn s(t: &str) -> String {
    String::from(t)
}

fn fresh(headers: &[&str]) -> DiaryDataSqlite {
    let conn = Connection::open_in_memory().unwrap();
    let names: Vec<String> = headers.iter().map(|h| s(h)).collect();
    initialize_sqlite_database(&conn, &names).unwrap();
    DiaryDataSqlite::open_sqlite_database(conn).unwrap()
}

#[test]
fn current_database_version() {
    let datafile = fresh(&["AA", "BBB", "CCA"]);
    assert_eq!(CURRENT_DB_VERSION, datafile.get_db_version());
}

#[test]
fn database_update() {
    let conn = Connection::open_in_memory().unwrap();
    conn.execute_batch(
        "BEGIN;
            DROP TABLE IF EXISTS Info;
            DROP TABLE IF EXISTS Category;
            CREATE TABLE Category(
                category_id INTEGER PRIMARY KEY AUTOINCREMENT,
                name TEXT NOT NULL,
                created_at INTEGER NOT NULL
            );
            DROP TABLE IF EXISTS DateEntry;
            CREATE TABLE DateEntry(
                date DATE PRIMARY KEY,
                created_at INTEGER NOT NULL
            );
            DROP TABLE IF EXISTS EntryToCategories;
            CREATE TABLE EntryToCategories(
                date INTEGER NOT NULL REFERENCES DateEntry(date) ON DELETE CASCADE,
                category_id INTEGER NOT NULL REFERENCES Category(category_id) ON DELETE CASCADE,
                PRIMARY KEY(category_id, date)
            );
            INSERT INTO Category (name, created_at) VALUES (\"test_category\", 101);
            INSERT INTO DateEntry (date, created_at) VALUES (123, 101);
            INSERT INTO EntryToCategories (date, category_id) VALUES (123, 1);
            COMMIT;",
    )
    .unwrap();
    let datafile = DiaryDataSqlite::open_sqlite_database(conn).unwrap();
    assert_eq!(CURRENT_DB_VERSION, datafile.get_db_version());
}

#[test]
fn test_sqlite() {
    let mut datafile = fresh(&["AA", "BBB", "CCA"]);
    datafile.update_data(d(2023, 2, 4), &vec![2]).unwrap();
    datafile.update_data(d(2023, 3, 3), &vec![2]).unwrap();
    datafile.update_data(d(2023, 2, 7), &vec![3]).unwrap();
    let missing_dates = datafile.get_missing_dates(None, d(2023, 2, 10)).unwrap();
    assert_eq!(
        missing_dates,
        vec![d(2023, 2, 5), d(2023, 2, 6), d(2023, 2, 8), d(2023, 2, 9), d(2023, 2, 10)]
    );
    let data_counts = datafile
        .calculate_data_counts_per_iter(&vec![(d(2023, 3, 3), d(2023, 2, 3))])
        .unwrap();
    assert_eq!(data_counts, vec![vec![0, 2, 1]]);

    let (min_date, max_date) = datafile.get_date_range().unwrap();
    assert_eq!(min_date, d(2023, 2, 4));
    assert_eq!(max_date, d(2023, 3, 3));
    let data_at = datafile.get_row(d(2023, 2, 7)).unwrap();
    assert_eq!(Some(vec![3]), data_at);
}

#[test]
fn add_category() {
    let mut datafile = fresh(&["AA", "BBB", "CCA"]);
    let result = datafile.add_category(&s("BBB")).unwrap();
    assert_eq!(AddCategoryResult::AlreadyPresent, result);
    let result = datafile.add_category(&s("DDD")).unwrap();
    assert_eq!(AddCategoryResult::AddedNew, result);

    let header = datafile.get_header();
    assert_eq!(
        vec![(s("AA"), 1), (s("BBB"), 2), (s("CCA"), 3), (s("DDD"), 4)],
        header
    );
}

#[test]
fn hide_category() {
    let mut datafile = fresh(&["AA", "BBB", "CCA"]);

    let result = datafile.hide_category(&s("DDD")).unwrap();
    assert_eq!(HideCategoryResult::NonExistingCategory, result);

    let result = datafile.hide_category(&s("AA")).unwrap();
    assert_eq!(HideCategoryResult::Hidden, result);

    let header = datafile.get_header();
    assert_eq!(vec![(s("BBB"), 2), (s("CCA"), 3)], header);

    let result = datafile.hide_category(&s("AA")).unwrap();
    assert_eq!(HideCategoryResult::AlreadyHidden, result);

    let header = datafile.get_header();
    assert_eq!(vec![(s("BBB"), 2), (s("CCA"), 3)], header);

    let result = datafile.add_category(&s("AA")).unwrap();
    assert_eq!(AddCategoryResult::Unhide, result);

    let header = datafile.get_header();
    assert_eq!(vec![(s("AA"), 1), (s("BBB"), 2), (s("CCA"), 3)], header);
}

#[test]
fn get_most_frequent_daily_data() {
    let mut datafile = fresh(&["AA", "BBB", "CCA"]);
    datafile.update_data(d(2023, 2, 4), &vec![2]).unwrap();
    datafile.update_data(d(2023, 2, 6), &vec![1, 3]).unwrap();
    datafile.update_data(d(2023, 2, 7), &vec![3]).unwrap();
    datafile.update_data(d(2023, 2, 8), &vec![3]).unwrap();
    datafile.update_data(d(2023, 2, 9), &vec![3]).unwrap();

    let most_frequent_days = datafile
        .get_most_frequent_daily_data(&Some(d(2023, 2, 6)), d(2023, 2, 8), Some(3usize))
        .unwrap();

    assert_eq!(most_frequent_days, vec![(vec![3], 2), (vec![1, 3], 1)]);
}

#[test]
fn test_get_rows() {
    let mut datafile = fresh(&["AA", "BBB"]);
    datafile
        .update_data_batch(&vec![
            (d(2024, 2, 1), vec![1]),
            (d(2024, 2, 2), vec![2]),
            (d(2024, 2, 4), vec![1, 2]),
            (d(2024, 2, 5), vec![]),
        ])
        .unwrap();

    let rows = datafile.get_rows(d(2024, 1, 30), d(2024, 2, 6)).unwrap();

    assert_eq!(
        rows,
        vec![
            None,
            Some(vec![]),
            Some(vec![1, 2]),
            None,
            Some(vec![2]),
            Some(vec![1]),
            None,
            None,
        ]
    );
}

#[test]
fn sqlite_update_row_added_then_replaced() {
    let mut datafile = fresh(&["AA", "BBB"]);
    let day = d(2023, 5, 1);
    let first = datafile.update_data(day, &vec![1]).unwrap();
    assert_eq!(first, SuccessfulUpdate::AddedNew);
    let second = datafile.update_data(day, &vec![2]).unwrap();
    assert_eq!(second, SuccessfulUpdate::ReplacedExisting);
    // the association set is replaced, never merged
    assert_eq!(datafile.get_row(day).unwrap(), Some(vec![2]));
}

#[test]
fn sqlite_update_rejects_unknown_category() {
    let mut datafile = fresh(&["AA"]);
    let e = datafile.update_data(d(2023, 5, 1), &vec![7]).unwrap_err();
    assert_eq!(e, DataError::UnknownCategoryId { id: 7 });
    assert!(datafile.is_empty().unwrap());
}

#[test]
fn hidden_categories_never_appear_in_signatures() {
    let mut datafile = fresh(&["AA", "BBB"]);
    datafile.update_data(d(2023, 2, 6), &vec![1, 2]).unwrap();
    datafile.update_data(d(2023, 2, 7), &vec![1, 2]).unwrap();
    datafile.hide_category(&s("AA")).unwrap();
    let most_frequent = datafile
        .get_most_frequent_daily_data(&Some(d(2023, 2, 1)), d(2023, 2, 10), None)
        .unwrap();
    assert_eq!(most_frequent, vec![(vec![2], 2)]);
    // the hidden category also leaves the rows
    let row = datafile.get_row(d(2023, 2, 6)).unwrap();
    assert_eq!(row, Some(vec![2]));
}

#[test]
fn sqlite_empty_diary_semantics() {
    let datafile = fresh(&["AA"]);
    assert!(datafile.is_empty().unwrap());
    assert_eq!(datafile.get_date_range().unwrap_err(), DataError::EmptyDiary);
    assert_eq!(datafile.get_missing_dates(None, d(2023, 1, 1)).unwrap(), Vec::<Date>::new());
    // with an explicit lower bound every date of the span is missing
    let missing = datafile
        .get_missing_dates(Some(d(2023, 1, 1)), d(2023, 1, 3))
        .unwrap();
    assert_eq!(missing, vec![d(2023, 1, 1), d(2023, 1, 2), d(2023, 1, 3)]);
}
