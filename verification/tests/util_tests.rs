use genee::configuration::{
    merge_cli_and_persistent_options, CliOptions, Config, SerializedConfig,
    DEFAULT_LIST_MOST_FREQUENT_DAYS, DEFAULT_PAST_PERIODS,
};
use genee::datafile::{is_flat_file_path, parse_category_list, DataError};
use genee::graphing::pretty_print_header;
use genee::table_utils::{decode_habit_vector, encode_habit_vector};
use genee::csv_datafile::create_new_csv;
use genee::diary::Diary;
use genee::sqlite_datafile::{initialize_sqlite_database, DiaryDataSqlite};
use genee::ui::{HabitFrequencyTableState, HabitFrequencyTableWidgetInput, Scale};
use genee::Date;

fn s(t: &str) -> String {
    String::from(t)
}

#[test]
fn decode_and_encode_habit_vectors() {
    let header = vec![(s("AA"), 1), (s("BBB"), 2), (s("CCA"), 3)];
    assert_eq!(decode_habit_vector(&header, &vec![1, 3]), vec![true, false, true]);
    assert_eq!(encode_habit_vector(&header, &vec![true, false, true]), vec![1, 3]);
    assert_eq!(encode_habit_vector(&header, &vec![false, false, false]), Vec::<i64>::new());
    let round = decode_habit_vector(&header, &encode_habit_vector(&header, &vec![false, true, true]));
    assert_eq!(round, vec![false, true, true]);
}

#[test]
fn scale_steps_and_values() {
    assert_eq!(Scale::Weekly.value(), 7);
    assert_eq!(Scale::Monthly.value(), 30);
    assert_eq!(Scale::FiveYearly.value(), 1825);
    assert_eq!(Scale::Weekly.smaller(), Scale::Weekly);
    assert_eq!(Scale::Monthly.smaller(), Scale::Weekly);
    assert_eq!(Scale::Yearly.larger(), Scale::FiveYearly);
    assert_eq!(Scale::FiveYearly.larger(), Scale::FiveYearly);
}

#[test]
fn frequency_state_reacts_to_inputs() {
    let mut state = HabitFrequencyTableState {
        begin_date: Date::from_ymd(2024, 1, 1),
        scale: Scale::Monthly,
        iters: 2,
    };
    assert!(state.update(HabitFrequencyTableWidgetInput::MorePeriods));
    assert_eq!(state.iters, 3);
    assert!(state.update(HabitFrequencyTableWidgetInput::FewerPeriods));
    assert!(state.update(HabitFrequencyTableWidgetInput::FewerPeriods));
    assert!(state.update(HabitFrequencyTableWidgetInput::FewerPeriods));
    assert_eq!(state.iters, 1);
    assert!(state.update(HabitFrequencyTableWidgetInput::LargerScale));
    assert_eq!(state.scale, Scale::Quarterly);
    let same = Date::from_ymd(2024, 1, 1);
    assert!(!state.update(HabitFrequencyTableWidgetInput::SetBeginDate(same)));
    let other = Date::from_ymd(2024, 2, 1);
    assert!(state.update(HabitFrequencyTableWidgetInput::SetBeginDate(other)));
    assert_eq!(state.begin_date, other);
}

#[test]
fn config_defaults_fill_absent_fields() {
    let stored = SerializedConfig { datafile_path: None, past_periods: None, list_most_frequent_days: Some(9) };
    let config = stored.into_config(s("/home/me/genee.db"));
    assert_eq!(config.datafile_path, s("/home/me/genee.db"));
    assert_eq!(config.past_periods, DEFAULT_PAST_PERIODS);
    assert_eq!(config.list_most_frequent_days, 9);

    let back = SerializedConfig::from_config(&config);
    assert_eq!(back.datafile_path, Some(s("/home/me/genee.db")));
    assert_eq!(back.past_periods, Some(DEFAULT_PAST_PERIODS));
    assert_eq!(back.list_most_frequent_days, Some(9));
    assert_eq!(DEFAULT_LIST_MOST_FREQUENT_DAYS, 5);
}

#[test]
fn merge_prefers_command_line_values() {
    let config = Config { datafile_path: s("default.db"), past_periods: 2, list_most_frequent_days: 5 };
    let cli = CliOptions { datafile: None, past_periods: Some(7), list_most_frequent_days: None };
    let merged = merge_cli_and_persistent_options(cli, &config);
    assert_eq!(merged.datafile, Some(s("default.db")));
    assert_eq!(merged.past_periods, Some(7));
    assert_eq!(merged.list_most_frequent_days, Some(5));
}

#[test]
fn flat_file_dispatch_rule() {
    assert!(is_flat_file_path(&s("diary.csv")));
    assert!(is_flat_file_path(&s("/home/me/data.csv")));
    // the extension is the suffix after the last dot of the file name
    assert!(is_flat_file_path(&s("a..csv")));
    assert!(!is_flat_file_path(&s("diary.db")));
    assert!(!is_flat_file_path(&s("csv")));
    assert!(!is_flat_file_path(&s("/home/.csv")));
    assert!(!is_flat_file_path(&s("diary.csv.bak")));
}

#[test]
fn category_list_parsing() {
    let names = parse_category_list(&s("AA,BBB,CCA")).unwrap();
    assert_eq!(names, vec![s("AA"), s("BBB"), s("CCA")]);
    assert_eq!(parse_category_list(&s("AA,,BB")).unwrap_err(), DataError::EmptyHeader);
    assert_eq!(parse_category_list(&s("")).unwrap_err(), DataError::EmptyHeader);
    assert_eq!(parse_category_list(&s("AA,")).unwrap_err(), DataError::EmptyHeader);
}

#[test]
fn header_line_layout() {
    let header = pretty_print_header(&vec![s("A"), s("BB"), s("CCC"), s("DDDD")]);
    assert_eq!(header, "            A   BB CCC DDD\n");
}

#[test]
fn diary_interface_dispatches_to_both_backends() {
    let mut csv = create_new_csv(vec![s("A"), s("B")]).unwrap();
    csv.update_data(Date::from_ymd(2024, 3, 1), &vec![true, false]).unwrap();
    csv.update_data(Date::from_ymd(2024, 3, 3), &vec![true, true]).unwrap();
    let flat = Diary::FlatFile(csv);
    assert!(!flat.is_empty().unwrap());
    assert_eq!(flat.header_names(), vec![s("A"), s("B")]);
    let (lo, hi) = flat.get_date_range().unwrap();
    assert_eq!(lo, Date::from_ymd(2024, 3, 1));
    assert_eq!(hi, Date::from_ymd(2024, 3, 3));
    let missing = flat.get_missing_dates(None, Date::from_ymd(2024, 3, 4)).unwrap();
    assert_eq!(missing, vec![Date::from_ymd(2024, 3, 2), Date::from_ymd(2024, 3, 4)]);
    let counts = flat
        .calculate_data_counts_per_iter(&vec![(Date::from_ymd(2024, 3, 4), Date::from_ymd(2024, 3, 1))])
        .unwrap();
    assert_eq!(counts, vec![vec![2, 1]]);

    let conn = rusqlite::Connection::open_in_memory().unwrap();
    initialize_sqlite_database(&conn, &vec![s("A"), s("B")]).unwrap();
    let mut db = DiaryDataSqlite::open_sqlite_database(conn).unwrap();
    db.update_data(Date::from_ymd(2024, 3, 1), &vec![1]).unwrap();
    db.update_data(Date::from_ymd(2024, 3, 3), &vec![1, 2]).unwrap();
    let relational = Diary::Relational(db);
    assert!(!relational.is_empty().unwrap());
    assert_eq!(relational.header_names(), vec![s("A"), s("B")]);
    let (lo, hi) = relational.get_date_range().unwrap();
    assert_eq!(lo, Date::from_ymd(2024, 3, 1));
    assert_eq!(hi, Date::from_ymd(2024, 3, 3));
    let missing = relational.get_missing_dates(None, Date::from_ymd(2024, 3, 4)).unwrap();
    assert_eq!(missing, vec![Date::from_ymd(2024, 3, 2), Date::from_ymd(2024, 3, 4)]);
    let counts = relational
        .calculate_data_counts_per_iter(&vec![(Date::from_ymd(2024, 3, 4), Date::from_ymd(2024, 3, 1))])
        .unwrap();
    assert_eq!(counts, vec![vec![2, 1]]);
}
