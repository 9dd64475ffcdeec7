//! Persistent configuration values and the rules that fill them in: every
//! absent field falls back to its default. Reading and writing the
//! configuration file is the caller's concern.
use vstd::prelude::*;

verus! {

/// How many past periods are displayed when nothing else is configured.
pub const DEFAULT_PAST_PERIODS: usize = 2;

/// How many most frequent daily habit compositions are printed when nothing
/// else is configured.
pub const DEFAULT_LIST_MOST_FREQUENT_DAYS: usize = 5;

/// All persistent configuration items, fully resolved.
pub struct Config {
    /// Path of the default data file.
    pub datafile_path: String,
    /// How many iterations to display.
    pub past_periods: usize,
    /// The number of most frequent daily habit compositions to print.
    pub list_most_frequent_days: usize,
}

/// The configuration as stored on disk: every item is optional.
pub struct SerializedConfig {
    pub datafile_path: Option<String>,
    pub past_periods: Option<usize>,
    pub list_most_frequent_days: Option<usize>,
}

/// The command-line options that interact with the persistent configuration.
pub struct CliOptions {
    /// Path to the diary file, when given on the command line.
    pub datafile: Option<String>,
    /// The number of displayed periods, when given on the command line.
    pub past_periods: Option<usize>,
    /// The number of most frequent daily habit compositions, when given.
    pub list_most_frequent_days: Option<usize>,
}

impl SerializedConfig {
    /// Resolves the stored configuration: absent items take their defaults,
    /// an absent path takes the supplied default path.
    pub fn into_config(self, default_datafile_path: String) -> (r: Config)
        ensures
            self.datafile_path is Some ==> r.datafile_path == self.datafile_path.unwrap(),
            self.datafile_path is None ==> r.datafile_path == default_datafile_path,
            r.past_periods == (if self.past_periods is Some {
                self.past_periods.unwrap()
            } else {
                DEFAULT_PAST_PERIODS
            }),
            r.list_most_frequent_days == (if self.list_most_frequent_days is Some {
                self.list_most_frequent_days.unwrap()
            } else {
                DEFAULT_LIST_MOST_FREQUENT_DAYS
            }),
    {
        Config {
            datafile_path: match self.datafile_path {
                Some(p) => p,
                None => default_datafile_path,
            },
            past_periods: match self.past_periods {
                Some(p) => p,
                None => DEFAULT_PAST_PERIODS,
            },
            list_most_frequent_days: match self.list_most_frequent_days {
                Some(p) => p,
                None => DEFAULT_LIST_MOST_FREQUENT_DAYS,
            },
        }
    }

    /// The storable form of a resolved configuration: every item present.
    pub fn from_config(config: &Config) -> (r: SerializedConfig)
        ensures
            r.datafile_path == Some(config.datafile_path),
            r.past_periods == Some(config.past_periods),
            r.list_most_frequent_days == Some(config.list_most_frequent_days),
    {
        SerializedConfig {
            datafile_path: Some(config.datafile_path.clone()),
            past_periods: Some(config.past_periods),
            list_most_frequent_days: Some(config.list_most_frequent_days),
        }
    }
}

/// Fills every command-line option that was not given from the persistent
/// configuration, so that all three options come out present.
pub fn merge_cli_and_persistent_options(
    options_from_cli: CliOptions,
    persistent_config: &Config,
) -> (r: CliOptions)
    ensures
        r.datafile == (if options_from_cli.datafile is Some {
            options_from_cli.datafile
        } else {
            Some(persistent_config.datafile_path)
        }),
        r.past_periods == Some(
            if options_from_cli.past_periods is Some {
                options_from_cli.past_periods.unwrap()
            } else {
                persistent_config.past_periods
            },
        ),
        r.list_most_frequent_days == Some(
            if options_from_cli.list_most_frequent_days is Some {
                options_from_cli.list_most_frequent_days.unwrap()
            } else {
                persistent_config.list_most_frequent_days
            },
        ),
{
    CliOptions {
        datafile: match options_from_cli.datafile {
            Some(p) => Some(p),
            None => Some(persistent_config.datafile_path.clone()),
        },
        past_periods: match options_from_cli.past_periods {
            Some(p) => Some(p),
            None => Some(persistent_config.past_periods),
        },
        list_most_frequent_days: match options_from_cli.list_most_frequent_days {
            Some(p) => Some(p),
            None => Some(persistent_config.list_most_frequent_days),
        },
    }
}

} // verus!
