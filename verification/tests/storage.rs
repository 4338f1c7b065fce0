use uptime_monitor::storage::{day_start, Storage, StorageError};

const DAY: u64 = 86400;
const MIN: u64 = 60;

#[test]
fn latest_returns_insert_with_max_timestamp() {
    let mut s = Storage::new();
    // inserted out of timestamp order on purpose
    s.insert_healthcheck(1, 3 * MIN, false).unwrap();
    s.insert_healthcheck(1, 5 * MIN, true).unwrap();
    s.insert_healthcheck(1, 4 * MIN, false).unwrap();
    s.insert_healthcheck(2, 9 * MIN, false).unwrap();
    assert_eq!(s.latest_healthcheck(1), Ok(true));
    assert_eq!(s.latest_healthcheck(2), Ok(false));
}

#[test]
fn latest_not_found_without_records() {
    let s = Storage::new();
    assert_eq!(s.latest_healthcheck(7), Err(StorageError::NotFound));
}

#[test]
fn duplicate_insert_fails_and_alters_nothing() {
    let mut s = Storage::new();
    s.insert_healthcheck(1, MIN, true).unwrap();
    let r = s.insert_healthcheck(1, MIN, false);
    assert_eq!(r, Err(StorageError::DuplicateKey));
    // the first record is still the one stored
    assert_eq!(s.latest_healthcheck(1), Ok(true));
}

#[test]
fn duplicate_insert_of_other_service_is_no_duplicate() {
    let mut s = Storage::new();
    s.insert_healthcheck(1, MIN, true).unwrap();
    assert_eq!(s.insert_healthcheck(2, MIN, false), Ok(()));
}

#[test]
fn aggregate_day_counts_successes_only() {
    let mut s = Storage::new();
    let day0 = 10 * DAY;
    // 5 checks for service 1, 3 of them successes, interleaved with
    // service 2's records
    s.insert_healthcheck(1, day0 + 1 * MIN, true).unwrap();
    s.insert_healthcheck(2, day0 + 1 * MIN, true).unwrap();
    s.insert_healthcheck(1, day0 + 2 * MIN, false).unwrap();
    s.insert_healthcheck(1, day0 + 3 * MIN, true).unwrap();
    s.insert_healthcheck(2, day0 + 3 * MIN, true).unwrap();
    s.insert_healthcheck(1, day0 + 4 * MIN, false).unwrap();
    s.insert_healthcheck(1, day0 + 5 * MIN, true).unwrap();
    // records of the day before and the day after stay out of the window
    s.insert_healthcheck(1, day0 - MIN, true).unwrap();
    s.insert_healthcheck(1, day0 + DAY, true).unwrap();
    s.convert_healthchecks_to_history(1, day0 + 12 * 3600).unwrap();
    let hist = s.fetch_history(1, 7, day0 + DAY + 30).unwrap();
    assert_eq!(hist, vec![3]);
}

#[test]
fn aggregate_day_of_empty_window_is_zero() {
    let mut s = Storage::new();
    let day0 = 4 * DAY;
    s.convert_healthchecks_to_history(9, day0).unwrap();
    let hist = s.fetch_history(9, 7, day0 + DAY).unwrap();
    assert_eq!(hist, vec![0]);
}

#[test]
fn aggregate_day_twice_fails_with_duplicate_key() {
    let mut s = Storage::new();
    let day0 = 4 * DAY;
    s.convert_healthchecks_to_history(9, day0).unwrap();
    let r = s.convert_healthchecks_to_history(9, day0 + 3600);
    assert_eq!(r, Err(StorageError::DuplicateKey));
}

#[test]
fn fetch_history_is_bounded_ordered_and_strictly_before_today() {
    let mut s = Storage::new();
    // aggregate ten consecutive days for service 1, with i successes on
    // the day numbered i
    for i in 0..10u64 {
        let day = (20 + i) * DAY;
        for k in 0..i {
            s.insert_healthcheck(1, day + (k + 1) * MIN, true).unwrap();
        }
        s.convert_healthchecks_to_history(1, day).unwrap();
    }
    let now = 30 * DAY + 15;
    let hist = s.fetch_history(1, 7, now).unwrap();
    // no more than 7 records, oldest first, today itself excluded
    assert_eq!(hist, vec![3, 4, 5, 6, 7, 8, 9]);
    // a window reaching past the first aggregated day is simply shorter
    let early = s.fetch_history(1, 7, 22 * DAY).unwrap();
    assert_eq!(early, vec![0, 1]);
    // the day containing `now` is never included
    let same_day = s.fetch_history(1, 7, 29 * DAY + 80000).unwrap();
    assert_eq!(same_day, vec![2, 3, 4, 5, 6, 7, 8]);
}

#[test]
fn fetch_history_of_unknown_service_is_empty() {
    let s = Storage::new();
    assert_eq!(s.fetch_history(3, 7, 50 * DAY), Ok(vec![]));
}

#[test]
fn fetch_history_skips_days_without_history() {
    let mut s = Storage::new();
    s.insert_healthcheck(1, 40 * DAY + MIN, true).unwrap();
    s.convert_healthchecks_to_history(1, 40 * DAY).unwrap();
    s.convert_healthchecks_to_history(1, 42 * DAY).unwrap();
    // day 41 was never aggregated: the sequence is shorter, not zero-filled
    let hist = s.fetch_history(1, 7, 43 * DAY).unwrap();
    assert_eq!(hist, vec![1, 0]);
}

#[test]
fn insert_history_reloads_persisted_days() {
    let mut s = Storage::new();
    s.insert_history(1, 5 * DAY, 17).unwrap();
    assert_eq!(s.history_uptime(1, 5 * DAY), Some(17));
    assert_eq!(s.history_uptime(1, 6 * DAY), None);
    assert_eq!(s.insert_history(1, 5 * DAY, 3), Err(StorageError::DuplicateKey));
    // the reloaded day is served like any aggregated one
    assert_eq!(s.fetch_history(1, 7, 6 * DAY), Ok(vec![17]));
}

#[test]
fn day_start_aligns_down() {
    assert_eq!(day_start(0), 0);
    assert_eq!(day_start(DAY - 1), 0);
    assert_eq!(day_start(DAY), DAY);
    assert_eq!(day_start(10 * DAY + 12345), 10 * DAY);
}
