use wasm_data_aggregator::daily::{
    daily_entries, daily_request, date_range_bounds, day_date, day_label, group_by_day,
    MS_PER_DAY,
};

#[test]
fn daily_entries_group_by_day_within_range() {
    let ms_per_day: u64 = 86_400_000;
    let timestamps = vec![ms_per_day * 10 + 1000, ms_per_day * 10 + 2000, ms_per_day * 11 + 1000];
    let entries = daily_entries(&timestamps, Some(ms_per_day * 10), Some(ms_per_day * 12));

    assert_eq!(entries.len(), 2);
    let day10 = entries.iter().find(|e| e.label == "day-10").unwrap();
    assert_eq!(day10.count, 2);
    assert_eq!(day10.members, vec![0, 1]);
    assert_eq!(day10.date, "864000000");
    let day11 = entries.iter().find(|e| e.label == "day-11").unwrap();
    assert_eq!(day11.count, 1);
    assert_eq!(day11.members, vec![2]);
}

#[test]
fn daily_entries_of_nothing_are_empty() {
    assert!(daily_entries(&vec![], Some(0), Some(999999999)).is_empty());
}

#[test]
fn out_of_range_timestamps_are_left_out() {
    let timestamps = vec![5, 100, 200, 300];
    let groups = group_by_day(&timestamps, 100, 200);
    assert_eq!(groups.len(), 1);
    assert_eq!(groups[0].day, 0);
    assert_eq!(groups[0].members, vec![1, 2]);
}

#[test]
fn missing_range_ends_admit_everything() {
    assert_eq!(date_range_bounds(None, None), (0, u64::MAX));
    assert_eq!(date_range_bounds(Some(7), None), (7, u64::MAX));
    assert_eq!(date_range_bounds(None, Some(9)), (0, 9));
    let entries = daily_entries(&vec![0, u64::MAX], None, None);
    assert_eq!(entries.len(), 2);
    assert_eq!(entries[1].day, u64::MAX / MS_PER_DAY);
    assert_eq!(entries[1].label, format!("day-{}", u64::MAX / MS_PER_DAY));
}

#[test]
fn day_boundaries() {
    let timestamps = vec![MS_PER_DAY - 1, MS_PER_DAY, 2 * MS_PER_DAY - 1];
    let groups = group_by_day(&timestamps, 0, u64::MAX);
    assert_eq!(groups.len(), 2);
    assert_eq!((groups[0].day, groups[0].members.clone()), (0, vec![0]));
    assert_eq!((groups[1].day, groups[1].members.clone()), (1, vec![1, 2]));
}

#[test]
fn day_label_and_date_text() {
    assert_eq!(day_label(0), "day-0");
    assert_eq!(day_label(19876), "day-19876");
    assert_eq!(day_date(0), "0");
    assert_eq!(day_date(2), "172800000");
}

#[test]
fn test_calculate_daily_metrics() {
    let ms_per_day: u64 = 86_400_000;
    let timestamps = vec![ms_per_day * 10 + 1000, ms_per_day * 10 + 2000, ms_per_day * 11 + 1000];
    let values = [5.0f64, 15.0, 25.0];
    let range = format!("{{\"startTimestamp\":{},\"endTimestamp\":{}}}", ms_per_day * 10, ms_per_day * 12);
    let entries = daily_request(&timestamps, &range).unwrap();

    assert_eq!(entries.len(), 2);
    let day10 = entries.iter().find(|e| e.label == "day-10").unwrap();
    assert_eq!(day10.count, 2);
    let sum10: f64 = day10.members.iter().map(|&i| values[i]).sum();
    assert_eq!(sum10, 20.0);
    assert_eq!(sum10 / day10.count as f64, 10.0);
    let day11 = entries.iter().find(|e| e.label == "day-11").unwrap();
    assert_eq!(day11.count, 1);
    let sum11: f64 = day11.members.iter().map(|&i| values[i]).sum();
    assert_eq!(sum11, 25.0);
}

#[test]
fn test_calculate_daily_metrics_empty() {
    let entries = daily_request(&vec![], "{\"startTimestamp\":0,\"endTimestamp\":999999999}").unwrap();
    assert_eq!(entries.len(), 0);
}

#[test]
fn undecodable_date_range_gives_nothing() {
    let timestamps = vec![1, 2, 3];
    assert!(daily_request(&timestamps, "not json").is_none());
    assert!(daily_request(&timestamps, "[0, 1]").is_none());
    assert!(daily_request(&timestamps, "{\"startTimestamp\":-1}").is_none());
    assert!(daily_request(&timestamps, "{\"startTimestamp\":1.5}").is_none());
}

#[test]
fn empty_date_range_is_the_full_range() {
    let timestamps = vec![0, 5 * MS_PER_DAY, u64::MAX, 5 * MS_PER_DAY + 1];
    let open = daily_request(&timestamps, "{}").unwrap();
    let full = daily_request(&timestamps, "{\"startTimestamp\":0,\"endTimestamp\":18446744073709551615}").unwrap();
    assert_eq!(open.len(), 3);
    assert_eq!(open.len(), full.len());
    for (a, b) in open.iter().zip(full.iter()) {
        assert_eq!((a.day, &a.label, &a.date, a.count, &a.members), (b.day, &b.label, &b.date, b.count, &b.members));
    }
}

#[test]
fn one_sided_date_ranges() {
    let timestamps = vec![10, 20, 30];
    let from = daily_request(&timestamps, "{\"startTimestamp\":20}").unwrap();
    assert_eq!(from[0].members, vec![1, 2]);
    let until = daily_request(&timestamps, "{\"endTimestamp\":20,\"other\":5}").unwrap();
    assert_eq!(until[0].members, vec![0, 1]);
}
