use std::collections::HashMap;
use wasm_data_aggregator::filtering::{
    apply_filters, classify_filter, filter_matches, filter_observations, filter_request,
    filters_from_parts, timestamp_bound, FilterKind, ValueChecks,
};
use wasm_data_aggregator::json::{JsonNumber, JsonValue};
use wasm_data_aggregator::metadata::{lookup, ObservationData};

fn from_serde(v: &serde_json::Value) -> JsonValue {
    match v {
        serde_json::Value::Null => JsonValue::Null,
        serde_json::Value::Bool(b) => JsonValue::Bool(*b),
        serde_json::Value::Number(n) => {
            if let Some(u) = n.as_u64() {
                JsonValue::Number(JsonNumber::PosInt(u))
            } else if let Some(i) = n.as_i64() {
                JsonValue::Number(JsonNumber::NegInt(i))
            } else {
                JsonValue::Number(JsonNumber::Float(n.to_string()))
            }
        }
        serde_json::Value::String(s) => JsonValue::String(s.clone()),
        serde_json::Value::Array(items) => JsonValue::Array(items.iter().map(from_serde).collect()),
        serde_json::Value::Object(map) => JsonValue::Object(
            map.iter().map(|(k, v)| (k.clone(), from_serde(v))).collect(),
        ),
    }
}

/// The observation as the filtering logic sees it.
fn data(timestamp: u64, metadata: &HashMap<String, serde_json::Value>) -> ObservationData {
    ObservationData {
        timestamp,
        metadata: metadata.iter().map(|(k, v)| (k.clone(), from_serde(v))).collect(),
    }
}

/// Applies the filters to an observation whose value is `value`: the float
/// comparisons are made here, the rest by the library.
fn admits(
    timestamp: u64,
    value: f64,
    metadata: &HashMap<String, serde_json::Value>,
    filters: &HashMap<String, serde_json::Value>,
) -> bool {
    let obs = data(timestamp, metadata);
    let entries: Vec<(String, JsonValue)> =
        filters.iter().map(|(k, v)| (k.clone(), from_serde(v))).collect();
    let checks: Vec<ValueChecks> = filters
        .iter()
        .map(|(_, v)| ValueChecks {
            not_below: v.as_f64().map_or(true, |min| !(value < min)),
            not_above: v.as_f64().map_or(true, |max| !(value > max)),
            not_before: v.as_f64().map_or(true, |min| timestamp as f64 >= min),
            not_after: v.as_f64().map_or(true, |max| timestamp as f64 <= max),
        })
        .collect();
    apply_filters(&obs, &entries, &checks)
}

const ALL_PASS: ValueChecks =
    ValueChecks { not_below: true, not_above: true, not_before: true, not_after: true };
const NONE_PASS: ValueChecks =
    ValueChecks { not_below: false, not_above: false, not_before: false, not_after: false };

#[test]
fn test_apply_filters_min_value() {
    let metadata = HashMap::new();

    let mut filters = HashMap::new();
    filters.insert(
        "minValue".to_string(),
        serde_json::Value::Number(serde_json::Number::from_f64(5.0).unwrap()),
    );

    assert!(admits(1000, 10.0, &metadata, &filters));

    filters.insert(
        "minValue".to_string(),
        serde_json::Value::Number(serde_json::Number::from_f64(15.0).unwrap()),
    );
    assert!(!admits(1000, 10.0, &metadata, &filters));
}

#[test]
fn test_apply_filters_metadata() {
    let mut metadata = HashMap::new();
    metadata.insert("category".to_string(), serde_json::Value::String("A".to_string()));

    let mut filters = HashMap::new();
    filters.insert("category".to_string(), serde_json::Value::String("A".to_string()));

    assert!(admits(1000, 10.0, &metadata, &filters));

    filters.insert("category".to_string(), serde_json::Value::String("B".to_string()));
    assert!(!admits(1000, 10.0, &metadata, &filters));
}

#[test]
fn test_apply_filters_timestamp_bounds() {
    let metadata = HashMap::new();

    let mut filters = HashMap::new();
    filters.insert("minTimestamp".to_string(), serde_json::Value::from(500));
    filters.insert("maxTimestamp".to_string(), serde_json::Value::from(1000));
    assert!(admits(1000, 10.0, &metadata, &filters));

    filters.insert("maxTimestamp".to_string(), serde_json::Value::from(999));
    assert!(!admits(1000, 10.0, &metadata, &filters));

    // A negative lower bound admits every timestamp rather than wrapping
    let mut filters = HashMap::new();
    filters.insert("minTimestamp".to_string(), serde_json::Value::from(-1));
    assert!(admits(1000, 10.0, &metadata, &filters));

    // A negative upper bound admits nothing
    let mut filters = HashMap::new();
    filters.insert("maxTimestamp".to_string(), serde_json::Value::from(-1));
    assert!(!admits(1000, 10.0, &metadata, &filters));
}

#[test]
fn test_apply_filters_missing_metadata_rejects() {
    let metadata = HashMap::new();
    let mut filters = HashMap::new();
    filters.insert("category".to_string(), serde_json::Value::from("A"));
    assert!(!admits(1000, 10.0, &metadata, &filters));
}

#[test]
fn max_value_bound_uses_value_checks() {
    let metadata = HashMap::new();
    let mut filters = HashMap::new();
    filters.insert("maxValue".to_string(), serde_json::Value::from(12));
    assert!(admits(1000, 10.0, &metadata, &filters));
    assert!(!admits(1000, 12.5, &metadata, &filters));
    // A bound that is not a number is ignored.
    filters.insert("maxValue".to_string(), serde_json::Value::from("small"));
    assert!(admits(1000, 1e9, &metadata, &filters));
}

#[test]
fn empty_filters_admit_everything() {
    let obs = ObservationData { timestamp: 0, metadata: vec![] };
    assert!(apply_filters(&obs, &vec![], &vec![]));
}

#[test]
fn classify_filter_names() {
    assert!(classify_filter(&"minValue".to_string()) == FilterKind::MinValue);
    assert!(classify_filter(&"maxValue".to_string()) == FilterKind::MaxValue);
    assert!(classify_filter(&"minTimestamp".to_string()) == FilterKind::MinTimestamp);
    assert!(classify_filter(&"maxTimestamp".to_string()) == FilterKind::MaxTimestamp);
    assert!(classify_filter(&"minvalue".to_string()) == FilterKind::Metadata);
    assert!(classify_filter(&"category".to_string()) == FilterKind::Metadata);
}

#[test]
fn timestamp_bound_reads_integers_only() {
    assert_eq!(timestamp_bound(&JsonValue::Number(JsonNumber::PosInt(u64::MAX))), Some(u64::MAX as i128));
    assert_eq!(timestamp_bound(&JsonValue::Number(JsonNumber::NegInt(-5))), Some(-5));
    assert_eq!(timestamp_bound(&JsonValue::Number(JsonNumber::Float("500.0".to_string()))), None);
    assert_eq!(timestamp_bound(&JsonValue::String("500".to_string())), None);
    assert_eq!(timestamp_bound(&JsonValue::Null), None);
}

#[test]
fn non_number_bounds_are_ignored() {
    let obs = ObservationData { timestamp: 1000, metadata: vec![] };
    let text = JsonValue::String("5000".to_string());
    for name in ["minTimestamp", "maxTimestamp", "minValue", "maxValue"].iter() {
        let name = name.to_string();
        assert!(filter_matches(&obs, &name, &text, NONE_PASS));
        assert!(filter_matches(&obs, &name, &JsonValue::Null, NONE_PASS));
        assert!(filter_matches(&obs, &name, &JsonValue::Bool(false), NONE_PASS));
    }
}

#[test]
fn float_timestamp_bound_is_compared() {
    // minTimestamp 2000.5 rejects timestamp 1000; maxTimestamp 2000.5 admits it.
    let metadata = HashMap::new();
    let mut filters = HashMap::new();
    filters.insert("minTimestamp".to_string(), serde_json::Value::from(2000.5));
    assert!(!admits(1000, 10.0, &metadata, &filters));
    assert!(admits(2001, 10.0, &metadata, &filters));
    let mut filters = HashMap::new();
    filters.insert("maxTimestamp".to_string(), serde_json::Value::from(2000.5));
    assert!(admits(1000, 10.0, &metadata, &filters));
    assert!(!admits(2001, 10.0, &metadata, &filters));
    // The library takes the outcome of that comparison from the checks.
    let obs = ObservationData { timestamp: 1000, metadata: vec![] };
    let bound = JsonValue::Number(JsonNumber::Float("2000.5".to_string()));
    assert!(!filter_matches(&obs, &"minTimestamp".to_string(), &bound, NONE_PASS));
    assert!(filter_matches(&obs, &"minTimestamp".to_string(), &bound, ALL_PASS));
}

#[test]
fn number_value_bounds_follow_checks() {
    let obs = ObservationData { timestamp: 1000, metadata: vec![] };
    let bound = JsonValue::Number(JsonNumber::PosInt(5));
    assert!(filter_matches(&obs, &"minValue".to_string(), &bound, ALL_PASS));
    assert!(!filter_matches(&obs, &"minValue".to_string(), &bound, NONE_PASS));
    assert!(!filter_matches(&obs, &"maxValue".to_string(), &bound, NONE_PASS));
    // An integer timestamp bound is compared exactly, whatever the checks say.
    assert!(filter_matches(&obs, &"minTimestamp".to_string(), &JsonValue::Number(JsonNumber::PosInt(1000)), NONE_PASS));
}

#[test]
fn timestamp_bounds_are_inclusive() {
    let obs = ObservationData { timestamp: 1000, metadata: vec![] };
    let bound = JsonValue::Number(JsonNumber::PosInt(1000));
    assert!(filter_matches(&obs, &"minTimestamp".to_string(), &bound, ALL_PASS));
    assert!(filter_matches(&obs, &"maxTimestamp".to_string(), &bound, ALL_PASS));
    let above = JsonValue::Number(JsonNumber::PosInt(1001));
    assert!(!filter_matches(&obs, &"minTimestamp".to_string(), &above, ALL_PASS));
    let max_u64 = ObservationData { timestamp: u64::MAX, metadata: vec![] };
    assert!(filter_matches(&max_u64, &"minTimestamp".to_string(), &JsonValue::Number(JsonNumber::NegInt(i64::MIN)), ALL_PASS));
}

#[test]
fn metadata_filter_compares_json_values() {
    let obs = ObservationData {
        timestamp: 1,
        metadata: vec![
            ("count".to_string(), JsonValue::Number(JsonNumber::PosInt(3))),
            ("ok".to_string(), JsonValue::Bool(true)),
        ],
    };
    let name = "count".to_string();
    assert!(filter_matches(&obs, &name, &JsonValue::Number(JsonNumber::PosInt(3)), ALL_PASS));
    assert!(!filter_matches(&obs, &name, &JsonValue::Number(JsonNumber::Float("3.0".to_string())), ALL_PASS));
    assert!(!filter_matches(&obs, &name, &JsonValue::String("3".to_string()), ALL_PASS));
    assert!(filter_matches(&obs, &"ok".to_string(), &JsonValue::Bool(true), ALL_PASS));
    // The value checks play no part for a metadata filter.
    assert!(filter_matches(&obs, &"ok".to_string(), &JsonValue::Bool(true), NONE_PASS));
}

#[test]
fn lookup_finds_first_entry_of_a_name() {
    let metadata = vec![
        ("a".to_string(), JsonValue::Bool(true)),
        ("b".to_string(), JsonValue::Null),
    ];
    assert!(lookup(&metadata, &"b".to_string()).unwrap().equals(&JsonValue::Null));
    assert!(lookup(&metadata, &"c".to_string()).is_none());
}

#[test]
fn filter_observations_keeps_admitted_in_order() {
    let observations: Vec<ObservationData> = [100u64, 2000, 50, 1500, 999]
        .iter()
        .map(|t| ObservationData { timestamp: *t, metadata: vec![] })
        .collect();
    let filters = vec![("minTimestamp".to_string(), JsonValue::Number(JsonNumber::PosInt(999)))];
    let checks = vec![vec![ALL_PASS]; observations.len()];
    assert_eq!(filter_observations(&observations, &filters, &checks), vec![1, 3, 4]);
}

#[test]
fn filter_request_reads_filters_and_grouping_keys() {
    let (filters, group_by) =
        filter_request("{\"category\":\"A\",\"minValue\":2.5}", "[\"category\",\"x\"]").unwrap();
    assert_eq!(filters.len(), 2);
    assert_eq!(filters[0].0, "category");
    assert!(filters[0].1.equals(&JsonValue::String("A".to_string())));
    assert_eq!(filters[1].0, "minValue");
    assert!(filters[1].1.equals(&JsonValue::Number(JsonNumber::Float("2.5".to_string()))));
    assert_eq!(group_by, vec!["category".to_string(), "x".to_string()]);
}

#[test]
fn filter_request_rejects_filters_that_are_not_an_object() {
    assert!(filter_request("not json", "[]").is_none());
    assert!(filter_request("[1,2]", "[]").is_none());
    assert!(filter_request("5", "[]").is_none());
}

#[test]
fn unreadable_grouping_keys_mean_no_grouping() {
    let (filters, group_by) = filter_request("{}", "oops").unwrap();
    assert!(filters.is_empty());
    assert!(group_by.is_empty());
    let (_, group_by) = filter_request("{}", "[1]").unwrap();
    assert!(group_by.is_empty());
}

#[test]
fn test_filter_and_aggregate() {
    // Two observations, no filters, no grouping: both are admitted.
    let observations: Vec<ObservationData> = vec![
        ObservationData {
            timestamp: 1000,
            metadata: vec![("category".to_string(), JsonValue::String("A".to_string()))],
        },
        ObservationData {
            timestamp: 2000,
            metadata: vec![("category".to_string(), JsonValue::String("B".to_string()))],
        },
    ];
    let (filters, group_by) = filter_request("{}", "[]").unwrap();
    assert!(group_by.is_empty());
    let checks = vec![vec![]; observations.len()];
    let admitted = filter_observations(&observations, &filters, &checks);
    assert_eq!(admitted.len(), 2);
}

#[test]
fn parts_are_held_as_json_values() {
    let parts = vec![
        ("n".to_string(), serde_json::Value::from(-3)),
        ("f".to_string(), serde_json::Value::from(0.25)),
        ("o".to_string(), serde_json::from_str::<serde_json::Value>("{\"b\":[true],\"a\":null}").unwrap()),
    ];
    let entries = filters_from_parts(&parts);
    assert_eq!(entries.len(), 3);
    assert!(entries[0].1.equals(&JsonValue::Number(JsonNumber::NegInt(-3))));
    assert!(entries[1].1.equals(&JsonValue::Number(JsonNumber::Float("0.25".to_string()))));
    assert_eq!(entries[2].1.to_json_text(), "{\"a\":null,\"b\":[true]}");
    let data = ObservationData::from_parts(7, &parts);
    assert_eq!(data.timestamp, 7);
    assert_eq!(data.metadata[1].0, "f");
}
