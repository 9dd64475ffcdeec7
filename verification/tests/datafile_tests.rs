use genee::csv_datafile::{create_new_csv, DayRow, DiaryDataCsv};
use genee::datafile::{DataError, SuccessfulUpdate};
use genee::ranges::get_date_ranges;
use genee::Date;

fn d(y: u32, m: u32, day: u32) -> Date {
    Date::from_ymd(y, m, day)
}

fn s(t: &str) -> String {
    String::from(t)
}

fn sample_diary() -> DiaryDataCsv {
    let mut data = create_new_csv(vec![s("A"), s("B"), s("C")]).unwrap();
    data.update_data(d(2021, 1, 1), &vec![true, false, false]).unwrap();
    data.update_data(d(2021, 1, 2), &vec![true, false, false]).unwrap();
    data.update_data(d(2021, 1, 3), &vec![true, true, false]).unwrap();
    data.update_data(d(2021, 1, 4), &vec![true, true, true]).unwrap();
    data.update_data(d(2021, 1, 5), &vec![true, false, false]).unwrap();
    data
}

#[test]
fn datafile_test_get_date_ranges() {
    let result = get_date_ranges(d(2000, 5, 30), 5, 3);
    assert_eq!(
        vec![
            (d(2000, 5, 30), d(2000, 5, 26)),
            (d(2000, 5, 25), d(2000, 5, 21)),
            (d(2000, 5, 20), d(2000, 5, 16)),
        ],
        result
    );
}

#[test]
fn mod_test_get_date_ranges() {
    let result = get_date_ranges(d(2000, 5, 30), 5, 3);
    assert_eq!(
        vec![
            (d(2000, 5, 30), d(2000, 5, 26)),
            (d(2000, 5, 25), d(2000, 5, 21)),
            (d(2000, 5, 20), d(2000, 5, 16)),
        ],
        result
    );
}

#[test]
fn test_calculate_data_counts_per_iter() {
    let data = sample_diary();
    let ranges = get_date_ranges(d(2021, 1, 5), 2, 3);
    let result = data.calculate_data_counts_per_iter(&ranges);
    assert_eq!(vec![vec![2, 1, 1], vec![2, 1, 0], vec![1, 0, 0]], result);
}

#[test]
fn test_calculate_data_counts() {
    let mut data = create_new_csv(vec![s("A"), s("B"), s("C")]).unwrap();
    data.update_data(d(2020, 1, 1), &vec![true, false, false]).unwrap();
    data.update_data(d(2021, 1, 1), &vec![true, false, false]).unwrap();
    data.update_data(d(2021, 1, 2), &vec![true, true, false]).unwrap();
    data.update_data(d(2021, 1, 3), &vec![true, true, true]).unwrap();
    data.update_data(d(2021, 1, 4), &vec![true, false, false]).unwrap();
    let result = data.calculate_data_counts(d(2020, 8, 5), d(2021, 1, 3));
    assert_eq!(vec![3, 2, 1], result);

    let (min_date, max_date) = data.get_date_range().unwrap();
    assert_eq!(min_date, d(2020, 1, 1));
    assert_eq!(max_date, d(2021, 1, 4));
}

#[test]
fn update_row_added_then_replaced() {
    let mut data = create_new_csv(vec![s("A"), s("B")]).unwrap();
    let day = d(2023, 6, 1);
    let first = data.update_data(day, &vec![true, false]).unwrap();
    assert_eq!(first, SuccessfulUpdate::AddedNew);
    let second = data.update_data(day, &vec![false, true]).unwrap();
    assert_eq!(second, SuccessfulUpdate::ReplacedExisting);
    // the read reflects only the latest vector, never a merge
    assert_eq!(data.get_row(day), Some(vec![false, true]));
}

#[test]
fn update_row_rejects_wrong_width() {
    let mut data = create_new_csv(vec![s("A"), s("B")]).unwrap();
    let e = data.update_data(d(2023, 6, 1), &vec![true]).unwrap_err();
    assert_eq!(e, DataError::UpdateWidthMismatch { expected: 2, found: 1 });
    assert!(data.is_empty());
}

#[test]
fn update_batch_applies_all_items() {
    let mut data = create_new_csv(vec![s("A")]).unwrap();
    data.update_data_batch(&vec![
        DayRow { date: d(2024, 2, 2), values: vec![true] },
        DayRow { date: d(2024, 2, 1), values: vec![false] },
        DayRow { date: d(2024, 2, 2), values: vec![false] },
    ])
    .unwrap();
    assert_eq!(data.get_row(d(2024, 2, 1)), Some(vec![false]));
    assert_eq!(data.get_row(d(2024, 2, 2)), Some(vec![false]));
}

#[test]
fn update_batch_error_keeps_earlier_items() {
    let mut data = create_new_csv(vec![s("A")]).unwrap();
    let e = data
        .update_data_batch(&vec![
            DayRow { date: d(2024, 2, 1), values: vec![true] },
            DayRow { date: d(2024, 2, 2), values: vec![true, false] },
            DayRow { date: d(2024, 2, 3), values: vec![true] },
        ])
        .unwrap_err();
    assert_eq!(e, DataError::UpdateWidthMismatch { expected: 1, found: 2 });
    // exactly the items before the offending one stay applied
    assert_eq!(data.get_row(d(2024, 2, 1)), Some(vec![true]));
    assert_eq!(data.get_row(d(2024, 2, 2)), None);
    assert_eq!(data.get_row(d(2024, 2, 3)), None);
}

#[test]
fn missing_dates_on_empty_diary() {
    let data = create_new_csv(vec![s("A")]).unwrap();
    let missing = data.get_missing_dates(None, d(2023, 2, 10));
    assert_eq!(missing, Vec::<Date>::new());
}

#[test]
fn missing_dates_between_entries() {
    let mut data = create_new_csv(vec![s("A")]).unwrap();
    data.update_data(d(2023, 2, 4), &vec![true]).unwrap();
    data.update_data(d(2023, 2, 7), &vec![false]).unwrap();
    let missing = data.get_missing_dates(None, d(2023, 2, 10));
    assert_eq!(
        missing,
        vec![d(2023, 2, 5), d(2023, 2, 6), d(2023, 2, 8), d(2023, 2, 9), d(2023, 2, 10)]
    );
}

#[test]
fn missing_dates_until_before_first_entry() {
    let mut data = create_new_csv(vec![s("A")]).unwrap();
    data.update_data(d(2023, 3, 1), &vec![true]).unwrap();
    let missing = data.get_missing_dates(Some(d(2023, 2, 26)), d(2023, 2, 28));
    assert_eq!(missing, vec![d(2023, 2, 26), d(2023, 2, 27), d(2023, 2, 28)]);
}

#[test]
fn date_range_of_empty_diary_is_an_error() {
    let data = create_new_csv(vec![s("A")]).unwrap();
    assert_eq!(data.get_date_range().unwrap_err(), DataError::EmptyDiary);
}

#[test]
fn create_new_csv_rejects_bad_headers() {
    assert_eq!(create_new_csv(vec![]).unwrap_err(), DataError::EmptyHeader);
    assert_eq!(create_new_csv(vec![s("")]).unwrap_err(), DataError::EmptyHeader);
    assert_eq!(create_new_csv(vec![s("a,b")]).unwrap_err(), DataError::EmptyHeader);
}

#[test]
fn date_day_numbers_anchor() {
    // the first supported day, the timestamp epoch, and a leap day
    assert_eq!(d(1, 1, 1).day_value(), 0);
    assert_eq!(d(1970, 1, 1).day_value(), 719162);
    assert_eq!(d(2000, 2, 29).day_value(), d(2000, 2, 28).day_value() + 1);
    assert_eq!(d(2000, 3, 1).day_value(), d(2000, 2, 29).day_value() + 1);
    assert_eq!(d(2021, 1, 5).ymd(), (2021, 1, 5));
}

#[test]
fn most_frequent_daily_data_on_flat_file() {
    let mut data = create_new_csv(vec![s("A"), s("B"), s("C")]).unwrap();
    data.update_data(d(2023, 2, 4), &vec![false, true, false]).unwrap();
    data.update_data(d(2023, 2, 6), &vec![true, false, true]).unwrap();
    data.update_data(d(2023, 2, 7), &vec![false, false, true]).unwrap();
    data.update_data(d(2023, 2, 8), &vec![false, false, true]).unwrap();
    data.update_data(d(2023, 2, 9), &vec![false, false, true]).unwrap();
    let most_frequent =
        data.get_most_frequent_daily_data(Some(d(2023, 2, 6)), d(2023, 2, 8), Some(3));
    assert_eq!(
        most_frequent,
        vec![
            (vec![false, false, true], 2),
            (vec![true, false, true], 1),
        ]
    );
    // the limit cuts the list after the most frequent compositions
    let top_one = data.get_most_frequent_daily_data(None, d(2023, 2, 9), Some(1));
    assert_eq!(top_one, vec![(vec![false, false, true], 3)]);
}
