//! Time-bucket queries over a content-addressed record store, and resolution
//! of the latest version of a record.
//!
//! Records are indexed under day buckets and, below those, hour buckets. The
//! library decides which buckets a query reads, builds their keys, reads the
//! hour buckets found under a day, joins what the buckets return, and picks
//! the latest version of a record from its history. Reading the store itself
//! is left to the caller, who hands the library what it read.

mod buckets;
mod calendar;
mod day_index;
mod latest;
mod paths;
mod results;
mod time;

pub use buckets::{
    fetch_entries_by_time, fetch_entries_from_day_to_day, fetch_entries_from_day_to_hour,
    fetch_entries_from_hour_to_day, fetch_entries_from_hour_to_hour, fetch_entries_in_time_range,
    lemma_day_range_reads_each_day, lemma_partial_days_read_by_hour, lemma_range_plan_covers_range,
    lemma_range_within_one_day,
    TimeBucket,
};
pub use calendar::{CalendarDate, MAX_YEAR, MIN_YEAR};
pub use day_index::{fetch_entries_by_day, hour_buckets_of_components, parse_hour_component};
pub use latest::{
    get_latest_for_entry, latest_version, EntryHistory, FetchedVersion, Identity, LatestSource,
    LatestVersion, VersionAction, WireElement,
};
pub use paths::{bucket_path, day_path_from_date, hour_path_from_date, lemma_bucket_keys_distinct};
pub use results::{join_bucket_results, keep_resolved_records};
pub use time::{is_valid_date_range, FetchEntriesTime, QueryError};
