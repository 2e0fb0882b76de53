use wasm_data_aggregator::grouping::{group_key, group_observations, Group};
use wasm_data_aggregator::json::{JsonNumber, JsonValue};
use wasm_data_aggregator::metadata::ObservationData;

fn obs(timestamp: u64, metadata: Vec<(&str, JsonValue)>) -> ObservationData {
    ObservationData {
        timestamp,
        metadata: metadata.into_iter().map(|(k, v)| (k.to_string(), v)).collect(),
    }
}

fn text(s: &str) -> JsonValue {
    JsonValue::String(s.to_string())
}

fn find<'a>(groups: &'a [Group], key: &str) -> Option<&'a Group> {
    groups.iter().find(|g| g.key == key)
}

#[test]
fn test_group_observations() {
    let obs1 = obs(1000, vec![("category", text("A"))]);
    let obs2 = obs(2000, vec![("category", text("B"))]);

    let observations = vec![obs1, obs2];
    let groups = group_observations(&observations, &vec!["category".to_string()]);

    assert_eq!(groups.len(), 2);
    assert_eq!(find(&groups, "A").unwrap().members.len(), 1);
    assert_eq!(find(&groups, "B").unwrap().members.len(), 1);
}

#[test]
fn group_key_joins_parts_with_bar_and_null() {
    let metadata = vec![
        ("region".to_string(), text("eu")),
        ("size".to_string(), JsonValue::Number(JsonNumber::PosInt(3))),
        ("flag".to_string(), JsonValue::Bool(false)),
    ];
    let by = |names: &[&str]| names.iter().map(|s| s.to_string()).collect::<Vec<String>>();
    assert_eq!(group_key(&metadata, &by(&["region", "size"])), "eu|3");
    assert_eq!(group_key(&metadata, &by(&["missing", "flag", "region"])), "null|false|eu");
    assert_eq!(group_key(&metadata, &by(&["region"])), "eu");
    assert_eq!(group_key(&metadata, &by(&[])), "");
    assert_eq!(group_key(&metadata, &by(&["missing"])), "null");
}

#[test]
fn group_key_renders_composite_values_as_json() {
    let metadata = vec![(
        "tags".to_string(),
        JsonValue::Array(vec![text("x"), JsonValue::Null]),
    )];
    assert_eq!(group_key(&metadata, &vec!["tags".to_string()]), "[\"x\",null]");
}

#[test]
fn groups_keep_first_occurrence_order_and_member_order() {
    let observations = vec![
        obs(1, vec![("c", text("B"))]),
        obs(2, vec![("c", text("A"))]),
        obs(3, vec![("c", text("B"))]),
        obs(4, vec![]),
        obs(5, vec![("c", text("A"))]),
        obs(6, vec![("c", text("B"))]),
    ];
    let groups = group_observations(&observations, &vec!["c".to_string()]);
    let keys: Vec<&str> = groups.iter().map(|g| g.key.as_str()).collect();
    assert_eq!(keys, vec!["B", "A", "null"]);
    assert_eq!(groups[0].members, vec![0, 2, 5]);
    assert_eq!(groups[1].members, vec![1, 4]);
    assert_eq!(groups[2].members, vec![3]);
    let total: usize = groups.iter().map(|g| g.members.len()).sum();
    assert_eq!(total, observations.len());
}

#[test]
fn no_grouping_keys_gives_one_group() {
    let observations = vec![obs(1, vec![("c", text("B"))]), obs(2, vec![])];
    let groups = group_observations(&observations, &vec![]);
    assert_eq!(groups.len(), 1);
    assert_eq!(groups[0].key, "");
    assert_eq!(groups[0].members, vec![0, 1]);
}

#[test]
fn no_observations_give_no_groups() {
    let groups = group_observations(&vec![], &vec!["c".to_string()]);
    assert!(groups.is_empty());
}
