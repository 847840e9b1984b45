use hdk::prelude::{Component, SerializedBytes, UnsafeBytes};
use hdk_crud::{
    bucket_path, day_path_from_date, fetch_entries_by_day, fetch_entries_by_time,
    fetch_entries_from_day_to_day, fetch_entries_from_day_to_hour, fetch_entries_from_hour_to_day,
    fetch_entries_from_hour_to_hour, fetch_entries_in_time_range, hour_buckets_of_components,
    hour_path_from_date, is_valid_date_range, join_bucket_results, keep_resolved_records,
    parse_hour_component, CalendarDate, FetchEntriesTime, QueryError, TimeBucket,
};

fn time(year: i32, month: u32, day: u32, hour: Option<u32>) -> FetchEntriesTime {
    FetchEntriesTime { year, month, day, hour }
}

fn date(year: i32, month: u32, day: u32) -> CalendarDate {
    CalendarDate { year, month, day }
}

/// Answers every lookup with one record that names the bucket's key.
fn read_all(base: &str, plan: &[TimeBucket]) -> Vec<String> {
    let results: Vec<Result<Vec<String>, ()>> = plan
        .iter()
        .map(|b| Ok(vec![bucket_path(base.to_string(), *b)]))
        .collect();
    join_bucket_results(results)
}

fn count_days(plan: &[TimeBucket]) -> usize {
    plan.iter().filter(|b| matches!(b, TimeBucket::Day(_))).count()
}

fn count_hours(plan: &[TimeBucket]) -> usize {
    plan.iter().filter(|b| matches!(b, TimeBucket::Hour(_, _))).count()
}

fn tag_of(text: &str) -> Vec<u8> {
    let bytes = SerializedBytes::try_from(Component::from(text)).unwrap();
    UnsafeBytes::from(bytes).into()
}

#[test]
fn test_fetch_entries_by_day() {
    let fetch_time = time(2021, 10, 15, None);
    let base_component = "create".to_string();
    assert_eq!(
        day_path_from_date(base_component.clone(), 2021, 10, 15),
        "create.2021-10-15"
    );
    let plan = fetch_entries_by_day(fetch_time, &vec![tag_of("10")]);
    assert_eq!(plan, Ok(vec![TimeBucket::Hour(date(2021, 10, 15), 10)]));
    let hour_entries = vec![1u32];
    let result = join_bucket_results::<u32, ()>(vec![Ok(hour_entries.clone())]);
    assert_eq!(result, hour_entries);
}

#[test]
fn test_fetch_entries_by_hour() {
    let base_component = "create".to_string();
    assert_eq!(
        hour_path_from_date(base_component, 2021, 10, 15, 10),
        "create.2021-10-15.10"
    );
    let result = keep_resolved_records::<u32, ()>(vec![Ok(Some(1))]);
    assert_eq!(result, vec![1]);
}

#[test]
fn test_fetch_by_time_day() {
    let fetch_time = time(2021, 10, 15, None);
    assert_eq!(fetch_entries_by_time(fetch_time), TimeBucket::Day(date(2021, 10, 15)));
    let plan = [fetch_entries_by_time(fetch_time)];
    assert_eq!(read_all("create", &plan), vec!["create.2021-10-15".to_string()]);
}

#[test]
fn test_fetch_by_time_hour() {
    let fetch_time = time(2021, 10, 15, Some(10));
    assert_eq!(
        fetch_entries_by_time(fetch_time),
        TimeBucket::Hour(date(2021, 10, 15), 10)
    );
    let plan = [fetch_entries_by_time(fetch_time)];
    assert_eq!(read_all("create", &plan), vec!["create.2021-10-15.10".to_string()]);
}

#[test]
fn test_fetch_entries_from_day_to_day() {
    let start_time = time(2021, 10, 20, None);
    let end_time = time(2021, 10, 21, None);
    let plan = fetch_entries_from_day_to_day(start_time, end_time);
    assert_eq!(count_days(&plan), 2);
    assert_eq!(read_all("create", &plan).len(), 2);
}

#[test]
fn fetch_entries_from_day_to_hour_test_fetch_entries_from_day_to_hour() {
    let start_time = time(2021, 10, 20, None);
    let end_time = time(2021, 10, 21, Some(2));
    let plan = fetch_entries_from_day_to_hour(start_time, end_time);
    assert_eq!(count_days(&plan), 1);
    assert_eq!(count_hours(&plan), 3);
    assert_eq!(read_all("create", &plan).len(), 4);
}

#[test]
fn fetch_entries_from_hour_to_day_test_fetch_entries_from_day_to_hour() {
    let start_time = time(2021, 10, 20, Some(22));
    let end_time = time(2021, 10, 22, None);
    let plan = fetch_entries_from_hour_to_day(start_time, end_time);
    assert_eq!(count_days(&plan), 2);
    assert_eq!(count_hours(&plan), 2);
    assert_eq!(read_all("create", &plan).len(), 4);
}

#[test]
fn fetch_entries_from_hour_to_hour_test_fetch_entries_from_day_to_hour() {
    // start and end on the same day
    let plan = fetch_entries_from_hour_to_hour(time(2021, 10, 20, Some(2)), time(2021, 10, 20, Some(5)));
    assert_eq!(count_hours(&plan), 4);
    assert_eq!(count_days(&plan), 0);
    assert_eq!(read_all("create", &plan).len(), 4);
    // end on the next day
    let plan = fetch_entries_from_hour_to_hour(time(2021, 10, 20, Some(22)), time(2021, 10, 21, Some(1)));
    assert_eq!(count_hours(&plan), 4);
    assert_eq!(count_days(&plan), 0);
    assert_eq!(read_all("create", &plan).len(), 4);
    // a whole day between start and end
    let plan = fetch_entries_from_hour_to_hour(time(2021, 10, 20, Some(23)), time(2021, 10, 22, Some(1)));
    assert_eq!(count_hours(&plan), 3);
    assert_eq!(count_days(&plan), 1);
    assert_eq!(read_all("create", &plan).len(), 4);
}

#[test]
fn test_fetch_in_time_range() {
    let day_day = fetch_entries_in_time_range(time(2021, 10, 20, None), time(2021, 10, 21, None));
    assert_eq!(
        day_day,
        Ok(fetch_entries_from_day_to_day(time(2021, 10, 20, None), time(2021, 10, 21, None)))
    );
    let day_hour = fetch_entries_in_time_range(time(2021, 10, 20, None), time(2021, 10, 21, Some(10)));
    assert_eq!(
        day_hour,
        Ok(fetch_entries_from_day_to_hour(time(2021, 10, 20, None), time(2021, 10, 21, Some(10))))
    );
    let hour_day = fetch_entries_in_time_range(time(2021, 10, 20, Some(10)), time(2021, 10, 21, None));
    assert_eq!(
        hour_day,
        Ok(fetch_entries_from_hour_to_day(time(2021, 10, 20, Some(10)), time(2021, 10, 21, None)))
    );
    let hour_hour =
        fetch_entries_in_time_range(time(2021, 10, 20, Some(10)), time(2021, 10, 21, Some(10)));
    assert_eq!(
        hour_hour,
        Ok(fetch_entries_from_hour_to_hour(time(2021, 10, 20, Some(10)), time(2021, 10, 21, Some(10))))
    );
}

#[test]
fn two_whole_days_are_read_as_two_days() {
    let plan = fetch_entries_in_time_range(time(2021, 10, 20, None), time(2021, 10, 21, None)).unwrap();
    assert_eq!(
        plan,
        vec![TimeBucket::Day(date(2021, 10, 20)), TimeBucket::Day(date(2021, 10, 21))]
    );
    assert_eq!(
        read_all("create", &plan),
        vec!["create.2021-10-20".to_string(), "create.2021-10-21".to_string()]
    );
}

#[test]
fn late_evening_to_early_morning_is_read_by_hour() {
    let plan = fetch_entries_in_time_range(time(2021, 10, 20, Some(22)), time(2021, 10, 21, Some(1))).unwrap();
    assert_eq!(
        plan,
        vec![
            TimeBucket::Hour(date(2021, 10, 20), 22),
            TimeBucket::Hour(date(2021, 10, 20), 23),
            TimeBucket::Hour(date(2021, 10, 21), 0),
            TimeBucket::Hour(date(2021, 10, 21), 1),
        ]
    );
}

#[test]
fn a_whole_day_between_two_hours_is_read_whole() {
    let plan = fetch_entries_in_time_range(time(2021, 10, 20, Some(23)), time(2021, 10, 22, Some(1))).unwrap();
    assert_eq!(
        plan,
        vec![
            TimeBucket::Hour(date(2021, 10, 20), 23),
            TimeBucket::Day(date(2021, 10, 21)),
            TimeBucket::Hour(date(2021, 10, 22), 0),
            TimeBucket::Hour(date(2021, 10, 22), 1),
        ]
    );
    assert_eq!(
        read_all("create", &plan),
        vec![
            "create.2021-10-20.23".to_string(),
            "create.2021-10-21".to_string(),
            "create.2021-10-22.0".to_string(),
            "create.2021-10-22.1".to_string(),
        ]
    );
}

#[test]
fn a_range_within_one_day_is_an_hour_sweep() {
    let plan = fetch_entries_in_time_range(time(2021, 10, 20, Some(3)), time(2021, 10, 20, Some(6))).unwrap();
    let sweep: Vec<TimeBucket> = (3..=6).map(|h| TimeBucket::Hour(date(2021, 10, 20), h)).collect();
    assert_eq!(plan, sweep);
    let plan = fetch_entries_in_time_range(time(2021, 10, 20, None), time(2021, 10, 20, Some(2))).unwrap();
    let sweep: Vec<TimeBucket> = (0..=2).map(|h| TimeBucket::Hour(date(2021, 10, 20), h)).collect();
    assert_eq!(plan, sweep);
}

#[test]
fn partial_days_are_never_read_whole() {
    let start = time(2021, 10, 20, Some(5));
    let end = time(2021, 10, 24, Some(7));
    let plan = fetch_entries_in_time_range(start, end).unwrap();
    assert!(!plan.contains(&TimeBucket::Day(date(2021, 10, 20))));
    assert!(!plan.contains(&TimeBucket::Day(date(2021, 10, 24))));
    assert_eq!(count_days(&plan), 3);
    assert_eq!(count_hours(&plan), 19 + 8);
}

#[test]
fn equal_or_reversed_ranges_are_refused() {
    let a = time(2021, 10, 20, Some(5));
    assert_eq!(fetch_entries_in_time_range(a, a), Err(QueryError::InvalidRange));
    let day = time(2021, 10, 20, None);
    assert_eq!(fetch_entries_in_time_range(day, day), Err(QueryError::InvalidRange));
    // a day without an hour counts from its first hour
    assert_eq!(
        fetch_entries_in_time_range(time(2021, 10, 20, Some(0)), day),
        Err(QueryError::InvalidRange)
    );
    assert_eq!(
        fetch_entries_in_time_range(time(2021, 10, 21, None), time(2021, 10, 20, Some(23))),
        Err(QueryError::InvalidRange)
    );
    assert_eq!(is_valid_date_range(a, a), Err(QueryError::InvalidRange));
    assert_eq!(is_valid_date_range(day, a), Ok(()));
}

#[test]
fn ranges_cross_month_and_year_ends() {
    let plan = fetch_entries_in_time_range(time(2020, 2, 28, None), time(2020, 3, 1, None)).unwrap();
    assert_eq!(
        plan,
        vec![
            TimeBucket::Day(date(2020, 2, 28)),
            TimeBucket::Day(date(2020, 2, 29)),
            TimeBucket::Day(date(2020, 3, 1)),
        ]
    );
    let plan = fetch_entries_in_time_range(time(2021, 2, 28, None), time(2021, 3, 1, None)).unwrap();
    assert_eq!(plan, vec![TimeBucket::Day(date(2021, 2, 28)), TimeBucket::Day(date(2021, 3, 1))]);
    let plan = fetch_entries_in_time_range(time(2021, 12, 31, Some(23)), time(2022, 1, 2, None)).unwrap();
    assert_eq!(
        plan,
        vec![
            TimeBucket::Hour(date(2021, 12, 31), 23),
            TimeBucket::Day(date(2022, 1, 1)),
            TimeBucket::Day(date(2022, 1, 2)),
        ]
    );
}

#[test]
fn dates_are_checked_against_the_calendar() {
    assert!(time(2020, 2, 29, None).is_valid());
    assert!(!time(2021, 2, 29, None).is_valid());
    assert!(!time(2021, 4, 31, None).is_valid());
    assert!(!time(2021, 13, 1, None).is_valid());
    assert!(!time(2021, 0, 1, None).is_valid());
    assert!(time(2021, 1, 1, Some(23)).is_valid());
    assert!(!time(2021, 1, 1, Some(24)).is_valid());
    assert!(!time(400000, 1, 1, None).is_valid());
    assert_eq!(date(2020, 2, 28).next_day(), date(2020, 2, 29));
    assert_eq!(date(2100, 2, 28).next_day(), date(2100, 3, 1));
    assert_eq!(date(2021, 12, 31).next_day(), date(2022, 1, 1));
}

#[test]
fn bucket_keys_spell_out_the_date() {
    assert_eq!(day_path_from_date("create".to_string(), 2021, 1, 5), "create.2021-1-5");
    assert_eq!(day_path_from_date("x".to_string(), -44, 3, 15), "x.-44-3-15");
    assert_eq!(hour_path_from_date("create".to_string(), 2021, 10, 5, 0), "create.2021-10-5.0");
    assert_eq!(
        bucket_path("posts".to_string(), TimeBucket::Hour(date(1999, 12, 31), 23)),
        "posts.1999-12-31.23"
    );
}

#[test]
fn hour_components_are_parsed() {
    assert_eq!(parse_hour_component("0"), Some(0));
    assert_eq!(parse_hour_component("23"), Some(23));
    assert_eq!(parse_hour_component("07"), Some(7));
    assert_eq!(parse_hour_component("+5"), Some(5));
    assert_eq!(parse_hour_component("24"), None);
    assert_eq!(parse_hour_component("123"), None);
    assert_eq!(parse_hour_component(""), None);
    assert_eq!(parse_hour_component("+"), None);
    assert_eq!(parse_hour_component("1a"), None);
    assert_eq!(parse_hour_component("-1"), None);
}

#[test]
fn day_children_become_hour_lookups() {
    let day = time(2021, 10, 15, None);
    let components = vec!["3".to_string(), "10".to_string()];
    assert_eq!(
        hour_buckets_of_components(day, &components),
        Ok(vec![TimeBucket::Hour(date(2021, 10, 15), 3), TimeBucket::Hour(date(2021, 10, 15), 10)])
    );
    let bad = vec!["3".to_string(), "noon".to_string()];
    assert_eq!(hour_buckets_of_components(day, &bad), Err(QueryError::MalformedBucketComponent));
    assert_eq!(fetch_entries_by_day(day, &vec![]), Ok(vec![]));
    assert_eq!(
        fetch_entries_by_day(day, &vec![tag_of("4"), tag_of("17")]),
        Ok(vec![TimeBucket::Hour(date(2021, 10, 15), 4), TimeBucket::Hour(date(2021, 10, 15), 17)])
    );
    assert_eq!(
        fetch_entries_by_day(day, &vec![tag_of("4"), tag_of("x")]),
        Err(QueryError::MalformedBucketComponent)
    );
    assert_eq!(
        fetch_entries_by_day(day, &vec![vec![0xc1, 0x00]]),
        Err(QueryError::MalformedBucketComponent)
    );
}

#[test]
fn failed_lookups_are_dropped_from_the_join() {
    let results: Vec<Result<Vec<u32>, ()>> = vec![Ok(vec![1, 2]), Err(()), Ok(vec![]), Ok(vec![3])];
    assert_eq!(join_bucket_results(results), vec![1, 2, 3]);
    let resolved: Vec<Result<Option<u32>, ()>> = vec![Ok(Some(1)), Ok(None), Err(()), Ok(Some(4))];
    assert_eq!(keep_resolved_records(resolved), vec![1, 4]);
}

#[test]
fn bucket_keys_of_distinct_buckets_differ() {
    let base = "create".to_string();
    let buckets = [
        TimeBucket::Day(date(2021, 1, 11)),
        TimeBucket::Day(date(2021, 11, 1)),
        TimeBucket::Hour(date(2021, 1, 1), 1),
        TimeBucket::Day(date(2021, 1, 1)),
        TimeBucket::Hour(date(2021, 1, 11), 1),
        TimeBucket::Hour(date(-2021, 1, 1), 1),
    ];
    for (i, a) in buckets.iter().enumerate() {
        for (j, b) in buckets.iter().enumerate() {
            let same = bucket_path(base.clone(), *a) == bucket_path(base.clone(), *b);
            assert_eq!(same, i == j);
        }
    }
}
