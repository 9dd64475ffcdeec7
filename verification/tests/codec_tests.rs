use genee::csv_codec::{parse_csv_diary, serialize_csv_diary};
use genee::csv_datafile::create_new_csv;
use genee::datafile::DataError;
use genee::Date;

fn d(y: u32, m: u32, day: u32) -> Date {
    Date::from_ymd(y, m, day)
}

fn s(t: &str) -> String {
    String::from(t)
}

#[test]
fn serialize_produces_the_documented_format() {
    let mut data = create_new_csv(vec![s("A"), s("B"), s("C")]).unwrap();
    data.update_data(d(2020, 1, 25), &vec![true, false, true]).unwrap();
    data.update_data(d(2020, 1, 26), &vec![false, false, false]).unwrap();
    let bytes = serialize_csv_diary(&data);
    assert_eq!(
        String::from_utf8(bytes).unwrap(),
        "date,A,B,C\n2020-01-25,x,,x\n2020-01-26,,,\n"
    );
}

#[test]
fn round_trip_keeps_header_and_rows() {
    let mut data = create_new_csv(vec![s("work"), s("walk"), s("read")]).unwrap();
    data.update_data(d(2020, 1, 25), &vec![true, false, true]).unwrap();
    data.update_data(d(2021, 12, 31), &vec![false, true, false]).unwrap();
    data.update_data(d(2022, 1, 1), &vec![true, true, true]).unwrap();
    let bytes = serialize_csv_diary(&data);
    let reread = parse_csv_diary(&bytes).unwrap();
    assert_eq!(reread.header, data.header);
    assert_eq!(reread.rows.len(), data.rows.len());
    for (a, b) in reread.rows.iter().zip(data.rows.iter()) {
        assert_eq!(a.date, b.date);
        assert_eq!(a.values, b.values);
    }
}

#[test]
fn round_trip_keeps_multibyte_names() {
    let mut data = create_new_csv(vec![s("tägl"), s("运动")]).unwrap();
    data.update_data(d(2023, 7, 14), &vec![true, false]).unwrap();
    let bytes = serialize_csv_diary(&data);
    let reread = parse_csv_diary(&bytes).unwrap();
    assert_eq!(reread.header, data.header);
    assert_eq!(reread.rows[0].values, vec![true, false]);
}

#[test]
fn parse_accepts_any_non_empty_cell_as_true() {
    let bytes = b"date,A,B\n2020-01-25,yes,\n".to_vec();
    let data = parse_csv_diary(&bytes).unwrap();
    assert_eq!(data.get_row(d(2020, 1, 25)), Some(vec![true, false]));
}

#[test]
fn parse_rejects_malformed_files() {
    let empty_header = b"date\n".to_vec();
    assert_eq!(parse_csv_diary(&empty_header).unwrap_err(), DataError::EmptyHeader);

    let bad_date = b"date,A\n2020-13-25,x\n".to_vec();
    assert_eq!(parse_csv_diary(&bad_date).unwrap_err(), DataError::BadDate { line: 2 });

    let wrong_width = b"date,A,B\n2020-01-25,x\n".to_vec();
    assert_eq!(
        parse_csv_diary(&wrong_width).unwrap_err(),
        DataError::RowWidthMismatch { line: 2, expected: 2, found: 1 }
    );

    let duplicate = b"date,A\n2020-01-25,x\n2020-01-25,\n".to_vec();
    assert_eq!(parse_csv_diary(&duplicate).unwrap_err(), DataError::DuplicateDate { line: 3 });

    let out_of_order = b"date,A\n2020-01-25,x\n2020-01-24,\n".to_vec();
    assert_eq!(
        parse_csv_diary(&out_of_order).unwrap_err(),
        DataError::OutOfOrderDate { line: 3 }
    );

    let empty_name = b"date,A,,B\n".to_vec();
    assert_eq!(parse_csv_diary(&empty_name).unwrap_err(), DataError::EmptyHeader);
}

#[test]
fn parse_accepts_a_file_without_final_newline() {
    let bytes = b"date,A\n2020-01-25,x".to_vec();
    let data = parse_csv_diary(&bytes).unwrap();
    assert_eq!(data.get_row(d(2020, 1, 25)), Some(vec![true]));
}

#[test]
fn parse_accepts_tracked_and_empty_days_apart() {
    let bytes = b"date,A\n2020-01-25,\n2020-01-27,x\n".to_vec();
    let data = parse_csv_diary(&bytes).unwrap();
    assert_eq!(data.get_row(d(2020, 1, 25)), Some(vec![false]));
    assert_eq!(data.get_row(d(2020, 1, 26)), None);
    assert_eq!(data.get_row(d(2020, 1, 27)), Some(vec![true]));
}
