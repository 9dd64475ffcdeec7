//! A habit diary engine: a date-indexed record of boolean "habit occurred"
//! flags per named category, with two storage backends (a comma-delimited
//! flat file and an embedded SQLite database), rolling-window counts, gap
//! detection and frequent-pattern analytics.
pub mod configuration;
pub mod csv_codec;
pub mod csv_datafile;
pub mod datafile;
pub mod date;
pub mod diary;
pub mod graphing;
pub mod ranges;
pub mod sqlite_datafile;
pub mod table_utils;
pub mod ui;

pub use date::Date;
