use vstd::prelude::*;
use crate::json::{JsonNumber, JsonValue, json_as_u64, json_as_i64, json_eq, lemma_json_eq_reflexive};
use crate::decode::{from_serde_value, decode_json, decode_string_list, decoded_json, decoded_string_list};
use crate::metadata::{ObservationData, metadata_value, lookup};

verus! {

/// What a filter's name asks for.
#[derive(PartialEq, Eq, Structural, Clone, Copy)]
pub enum FilterKind {
    /// `minValue`: the observation's value is not below the bound.
    MinValue,
    /// `maxValue`: the observation's value is not above the bound.
    MaxValue,
    /// `minTimestamp`: the timestamp is not before the bound.
    MinTimestamp,
    /// `maxTimestamp`: the timestamp is not after the bound.
    MaxTimestamp,
    /// Any other name: the metadata value of that name equals the filter's.
    Metadata,
}

pub open spec fn filter_kind(name: Seq<char>) -> FilterKind {
    if name == "minValue"@ {
        FilterKind::MinValue
    } else if name == "maxValue"@ {
        FilterKind::MaxValue
    } else if name == "minTimestamp"@ {
        FilterKind::MinTimestamp
    } else if name == "maxTimestamp"@ {
        FilterKind::MaxTimestamp
    } else {
        FilterKind::Metadata
    }
}

/// The outcomes of the comparisons that need the filter's value read as a
/// float (`Value::as_f64`), when that value is a number. They are consulted
/// only for a number: a bound that is not a number is ignored.
#[derive(Clone, Copy)]
pub struct ValueChecks {
    /// For `minValue`: `!(observation value < bound)`.
    pub not_below: bool,
    /// For `maxValue`: `!(observation value > bound)`.
    pub not_above: bool,
    /// For `minTimestamp` with a bound that is not an integer: the
    /// timestamp is at or after the bound.
    pub not_before: bool,
    /// For `maxTimestamp` with a bound that is not an integer: the
    /// timestamp is at or before the bound.
    pub not_after: bool,
}

/// The value is a JSON number.
pub open spec fn is_number(value: JsonValue) -> bool {
    value is Number
}

/// The integer bound that a timestamp filter's value gives: the value as
/// `u64`, else as `i64`, else none.
pub open spec fn timestamp_bound_of(value: JsonValue) -> Option<int> {
    match json_as_u64(value) {
        Some(u) => Some(u as int),
        None => match json_as_i64(value) {
            Some(i) => Some(i as int),
            None => None,
        },
    }
}

/// Whether one filter criterion admits an observation.
pub open spec fn filter_holds(
    obs: ObservationData,
    name: Seq<char>,
    value: JsonValue,
    checks: ValueChecks,
) -> bool {
    match filter_kind(name) {
        FilterKind::MinValue => !is_number(value) || checks.not_below,
        FilterKind::MaxValue => !is_number(value) || checks.not_above,
        FilterKind::MinTimestamp => match timestamp_bound_of(value) {
            Some(min) => obs.timestamp >= min,
            None => !is_number(value) || checks.not_before,
        },
        FilterKind::MaxTimestamp => match timestamp_bound_of(value) {
            Some(max) => obs.timestamp <= max,
            None => !is_number(value) || checks.not_after,
        },
        FilterKind::Metadata => match metadata_value(obs.metadata@, name) {
            Some(v) => json_eq(v, value),
            None => false,
        },
    }
}

/// Whether every filter admits the observation.
pub open spec fn filters_hold(
    obs: ObservationData,
    filters: Seq<(String, JsonValue)>,
    checks: Seq<ValueChecks>,
) -> bool {
    forall|i: int|
        0 <= i < filters.len() ==> #[trigger] filter_holds(obs, filters[i].0@, filters[i].1, checks[i])
}

fn value_is_number(value: &JsonValue) -> (r: bool)
    ensures
        r == is_number(*value),
{
    match value {
        JsonValue::Number(_) => true,
        _ => false,
    }
}

fn is_named(name: &String, lit: &str) -> (r: bool)
    ensures
        r == (name@ == lit@),
{
    *name == String::from_str(lit)
}

/// What a filter's name asks for.
pub fn classify_filter(name: &String) -> (kind: FilterKind)
    ensures
        kind == filter_kind(name@),
{
    if is_named(name, "minValue") {
        FilterKind::MinValue
    } else if is_named(name, "maxValue") {
        FilterKind::MaxValue
    } else if is_named(name, "minTimestamp") {
        FilterKind::MinTimestamp
    } else if is_named(name, "maxTimestamp") {
        FilterKind::MaxTimestamp
    } else {
        FilterKind::Metadata
    }
}

/// The integer bound that a timestamp filter's value gives, widened to
/// `i128` so that a negative bound compares correctly with an unsigned
/// timestamp.
pub fn timestamp_bound(value: &JsonValue) -> (bound: Option<i128>)
    ensures
        match bound {
            Some(b) => timestamp_bound_of(*value) == Some(b as int),
            None => timestamp_bound_of(*value) is None,
        },
{
    match value.as_u64() {
        Some(u) => Some(u as i128),
        None => match value.as_i64() {
            Some(i) => Some(i as i128),
            None => None,
        },
    }
}

/// Whether the filter `name`/`value` admits the observation; `checks`
/// carries the outcome of the value-bound comparisons for this filter.
pub fn filter_matches(
    obs: &ObservationData,
    name: &String,
    value: &JsonValue,
    checks: ValueChecks,
) -> (admitted: bool)
    ensures
        admitted == filter_holds(*obs, name@, *value, checks),
{
    match classify_filter(name) {
        FilterKind::MinValue => !value_is_number(value) || checks.not_below,
        FilterKind::MaxValue => !value_is_number(value) || checks.not_above,
        FilterKind::MinTimestamp => match timestamp_bound(value) {
            Some(min) => obs.timestamp as i128 >= min,
            None => !value_is_number(value) || checks.not_before,
        },
        FilterKind::MaxTimestamp => match timestamp_bound(value) {
            Some(max) => obs.timestamp as i128 <= max,
            None => !value_is_number(value) || checks.not_after,
        },
        FilterKind::Metadata => match lookup(&obs.metadata, name) {
            Some(v) => v.equals(value),
            None => false,
        },
    }
}

/// Whether every filter admits the observation. `checks[i]` carries the
/// outcome of the value-bound comparisons for `filters[i]`.
pub fn apply_filters(
    obs: &ObservationData,
    filters: &Vec<(String, JsonValue)>,
    checks: &Vec<ValueChecks>,
) -> (admitted: bool)
    requires
        filters@.len() == checks@.len(),
    ensures
        admitted == filters_hold(*obs, filters@, checks@),
{
    let n = filters.len();
    for i in 0..n
        invariant
            n == filters@.len(),
            n == checks@.len(),
            forall|j: int|
                0 <= j < i ==> #[trigger] filter_holds(
                    *obs,
                    filters@[j].0@,
                    filters@[j].1,
                    checks@[j],
                ),
    {
        if !filter_matches(obs, &filters[i].0, &filters[i].1, checks[i]) {
            return false;
        }
    }
    true
}

/// The indices of the observations that every filter admits, in order.
/// `checks[i][f]` carries the outcome of the value-bound comparisons of
/// observation `i` with filter `f`.
pub fn filter_observations(
    observations: &Vec<ObservationData>,
    filters: &Vec<(String, JsonValue)>,
    checks: &Vec<Vec<ValueChecks>>,
) -> (admitted: Vec<usize>)
    requires
        checks@.len() == observations@.len(),
        forall|i: int| 0 <= i < checks@.len() ==> #[trigger] checks@[i]@.len() == filters@.len(),
    ensures
        forall|j: int| 0 <= j < admitted@.len() ==> #[trigger] admitted@[j] < observations@.len(),
        forall|j1: int, j2: int|
            0 <= j1 < j2 < admitted@.len() ==> #[trigger] admitted@[j1] < #[trigger] admitted@[j2],
        forall|i: int|
            0 <= i < observations@.len() ==> (admitted@.contains(i as usize) <==> filters_hold(
                #[trigger] observations@[i],
                filters@,
                checks@[i]@,
            )),
{
    let mut admitted: Vec<usize> = Vec::new();
    let n = observations.len();
    for i in 0..n
        invariant
            n == observations@.len(),
            checks@.len() == n,
            forall|k: int| 0 <= k < checks@.len() ==> #[trigger] checks@[k]@.len() == filters@.len(),
            forall|j: int| 0 <= j < admitted@.len() ==> #[trigger] admitted@[j] < i,
            forall|j1: int, j2: int|
                0 <= j1 < j2 < admitted@.len() ==> #[trigger] admitted@[j1] < #[trigger] admitted@[j2],
            forall|k: int|
                0 <= k < i ==> (admitted@.contains(k as usize) <==> filters_hold(
                    #[trigger] observations@[k],
                    filters@,
                    checks@[k]@,
                )),
    {
        assert(checks@[i as int]@.len() == filters@.len());
        let ghost prev = admitted@;
        if apply_filters(&observations[i], filters, &checks[i]) {
            admitted.push(i);
            proof {
                assert(admitted@[prev.len() as int] == i);
                assert forall|k: int| 0 <= k < i + 1 implies (admitted@.contains(k as usize)
                    <==> filters_hold(#[trigger] observations@[k], filters@, checks@[k]@)) by {
                    if k < i {
                        if prev.contains(k as usize) {
                            let j = choose|j: int| 0 <= j < prev.len() && prev[j] == k as usize;
                            assert(admitted@[j] == k as usize);
                        }
                        if admitted@.contains(k as usize) {
                            let j = choose|j: int| 0 <= j < admitted@.len() && admitted@[j] == k as usize;
                            if j < prev.len() {
                                assert(prev[j] == k as usize);
                            }
                        }
                    }
                }
            }
        } else {
            proof {
                assert forall|k: int| 0 <= k < i + 1 implies (admitted@.contains(k as usize)
                    <==> filters_hold(#[trigger] observations@[k], filters@, checks@[k]@)) by {
                    if k == i && admitted@.contains(k as usize) {
                        let j = choose|j: int| 0 <= j < admitted@.len() && admitted@[j] == k as usize;
                        assert(admitted@[j] < i);
                    }
                }
            }
        }
    }
    admitted
}

/// The filters as the library holds them: each name with its serde_json
/// value held as the library holds one.
pub fn filters_from_parts(filters: &Vec<(String, serde_json::Value)>) -> (entries: Vec<
    (String, JsonValue),
>)
    ensures
        entries@.len() == filters@.len(),
        forall|i: int| 0 <= i < filters@.len() ==> #[trigger] entries@[i].0 == filters@[i].0,
        forall|i: int|
            0 <= i < filters@.len() ==> call_ensures(
                from_serde_value,
                (&filters@[i].1,),
                #[trigger] entries@[i].1,
            ),
{
    let mut entries: Vec<(String, JsonValue)> = Vec::new();
    let n = filters.len();
    for i in 0..n
        invariant
            n == filters@.len(),
            entries@.len() == i,
            forall|j: int| 0 <= j < i ==> #[trigger] entries@[j].0 == filters@[j].0,
            forall|j: int|
                0 <= j < i ==> call_ensures(from_serde_value, (&filters@[j].1,), #[trigger] entries@[j].1),
    {
        let convert = from_serde_value;
        let value = convert(&filters[i].1);
        entries.push((filters[i].0.clone(), value));
    }
    entries
}

/// The filters and the grouping keys of a filter-and-aggregate request,
/// read from their JSON texts: nothing when the filters are not a JSON
/// object; no grouping keys when those are not a JSON array of strings.
pub fn filter_request(filters_text: &str, group_by_text: &str) -> (request: Option<
    (Vec<(String, JsonValue)>, Vec<String>),
>)
    ensures
        request is None <==> !(decoded_json(filters_text@) matches Some(JsonValue::Object(_))),
        request matches Some((filters, group_by)) ==> {
            &&& decoded_json(filters_text@) == Some(JsonValue::Object(filters))
            &&& group_by@.map_values(|s: String| s@) == match decoded_string_list(group_by_text@) {
                Some(l) => l,
                None => seq![],
            }
        },
{
    let filters = match decode_json(filters_text) {
        Some(JsonValue::Object(entries)) => entries,
        _ => {
            return None;
        },
    };
    let group_by = match decode_string_list(group_by_text) {
        Some(g) => g,
        None => {
            let empty: Vec<String> = Vec::new();
            assert(empty@.map_values(|s: String| s@) =~= seq![]);
            empty
        },
    };
    Some((filters, group_by))
}

proof fn lemma_timestamp_names()
    ensures
        filter_kind("minTimestamp"@) == FilterKind::MinTimestamp,
        filter_kind("maxTimestamp"@) == FilterKind::MaxTimestamp,
{
    reveal_strlit("minTimestamp");
    reveal_strlit("maxTimestamp");
    reveal_strlit("minValue");
    reveal_strlit("maxValue");
    assert("minTimestamp"@.len() == 12);
    assert("maxTimestamp"@.len() == 12);
    assert("minValue"@.len() == 8);
    assert("maxValue"@.len() == 8);
    assert("minTimestamp"@[1] != "maxTimestamp"@[1]);
}

/// A value bound that is a number, integer or float, decides by its check:
/// `minValue` admits exactly when `not_below` holds and `maxValue` exactly
/// when `not_above` holds; a timestamp bound that is a number but not an
/// integer decides by `not_before` / `not_after`.
pub proof fn lemma_number_bounds_follow_checks(
    obs: ObservationData,
    value: JsonValue,
    checks: ValueChecks,
)
    requires
        value is Number,
    ensures
        filter_holds(obs, "minValue"@, value, checks) == checks.not_below,
        filter_holds(obs, "maxValue"@, value, checks) == checks.not_above,
        value matches JsonValue::Number(JsonNumber::Float(_)) ==> filter_holds(
            obs,
            "minTimestamp"@,
            value,
            checks,
        ) == checks.not_before && filter_holds(obs, "maxTimestamp"@, value, checks)
            == checks.not_after,
{
    lemma_timestamp_names();
    reveal_strlit("minValue");
    reveal_strlit("maxValue");
    assert("maxValue"@.len() == 8);
    assert("minValue"@[1] != "maxValue"@[1]);
}

/// A negative `minTimestamp` bound admits every observation.
pub proof fn lemma_negative_lower_bound_admits_all(
    obs: ObservationData,
    value: JsonValue,
    checks: ValueChecks,
)
    requires
        timestamp_bound_of(value) matches Some(b) && b < 0,
    ensures
        filter_holds(obs, "minTimestamp"@, value, checks),
{
    lemma_timestamp_names();
}

/// A negative `maxTimestamp` bound admits no observation.
pub proof fn lemma_negative_upper_bound_admits_none(
    obs: ObservationData,
    value: JsonValue,
    checks: ValueChecks,
)
    requires
        timestamp_bound_of(value) matches Some(b) && b < 0,
    ensures
        !filter_holds(obs, "maxTimestamp"@, value, checks),
{
    reveal_strlit("maxTimestamp");
    lemma_timestamp_names();
}

/// A bound that is not a number is ignored, whatever the value checks say.
pub proof fn lemma_non_number_bound_ignored(
    obs: ObservationData,
    name: Seq<char>,
    value: JsonValue,
    checks: ValueChecks,
)
    requires
        filter_kind(name) != FilterKind::Metadata,
        !is_number(value),
    ensures
        filter_holds(obs, name, value, checks),
{
}

/// An integer timestamp bound is compared with the timestamp exactly, and
/// the value checks play no part.
pub proof fn lemma_integer_timestamp_bound_exact(
    obs: ObservationData,
    value: JsonValue,
    checks: ValueChecks,
)
    requires
        timestamp_bound_of(value) is Some,
    ensures
        filter_holds(obs, "minTimestamp"@, value, checks) == (obs.timestamp >= timestamp_bound_of(
            value,
        )->0),
        filter_holds(obs, "maxTimestamp"@, value, checks) == (obs.timestamp <= timestamp_bound_of(
            value,
        )->0),
{
    lemma_timestamp_names();
}

/// A metadata filter rejects an observation that has no metadata value of
/// that name.
pub proof fn lemma_missing_metadata_rejects(
    obs: ObservationData,
    name: Seq<char>,
    value: JsonValue,
    checks: ValueChecks,
)
    requires
        filter_kind(name) == FilterKind::Metadata,
        metadata_value(obs.metadata@, name) is None,
    ensures
        !filter_holds(obs, name, value, checks),
{
}

/// A metadata filter that asks for the observation's own value of that name
/// admits it.
pub proof fn lemma_own_metadata_value_admits(
    obs: ObservationData,
    name: Seq<char>,
    checks: ValueChecks,
)
    requires
        filter_kind(name) == FilterKind::Metadata,
        metadata_value(obs.metadata@, name) is Some,
    ensures
        filter_holds(obs, name, metadata_value(obs.metadata@, name)->0, checks),
{
    lemma_json_eq_reflexive(metadata_value(obs.metadata@, name)->0);
}

/// Adding criteria never admits more observations: when every filter of
/// `fewer` (with its value checks) is also among `more`, whatever `more`
/// admits, `fewer` admits.
pub proof fn lemma_more_filters_admit_no_more(
    obs: ObservationData,
    fewer: Seq<(String, JsonValue)>,
    fewer_checks: Seq<ValueChecks>,
    more: Seq<(String, JsonValue)>,
    more_checks: Seq<ValueChecks>,
)
    requires
        fewer.len() == fewer_checks.len(),
        more.len() == more_checks.len(),
        forall|i: int|
            0 <= i < fewer.len() ==> exists|j: int|
                0 <= j < more.len() && #[trigger] more[j].0@ == #[trigger] fewer[i].0@ && more[j].1
                    == fewer[i].1 && more_checks[j] == fewer_checks[i],
        filters_hold(obs, more, more_checks),
    ensures
        filters_hold(obs, fewer, fewer_checks),
{
    assert forall|i: int| 0 <= i < fewer.len() implies #[trigger] filter_holds(
        obs,
        fewer[i].0@,
        fewer[i].1,
        fewer_checks[i],
    ) by {
        let j = choose|j: int|
            0 <= j < more.len() && #[trigger] more[j].0@ == #[trigger] fewer[i].0@ && more[j].1
                == fewer[i].1 && more_checks[j] == fewer_checks[i];
        assert(filter_holds(obs, more[j].0@, more[j].1, more_checks[j]));
    }
}

/// With no filters, every observation is admitted; adding a filter admits
/// exactly the observations that both the earlier filters and the new one
/// admit.
pub proof fn lemma_filters_conjunction(
    obs: ObservationData,
    filters: Seq<(String, JsonValue)>,
    checks: Seq<ValueChecks>,
    extra: (String, JsonValue),
    extra_checks: ValueChecks,
)
    requires
        filters.len() == checks.len(),
    ensures
        filters_hold(obs, Seq::empty(), Seq::empty()),
        filters_hold(obs, filters.push(extra), checks.push(extra_checks)) == (filters_hold(
            obs,
            filters,
            checks,
        ) && filter_holds(obs, extra.0@, extra.1, extra_checks)),
{
    let f2 = filters.push(extra);
    let c2 = checks.push(extra_checks);
    if filters_hold(obs, f2, c2) {
        assert forall|i: int| 0 <= i < filters.len() implies #[trigger] filter_holds(
            obs,
            filters[i].0@,
            filters[i].1,
            checks[i],
        ) by {
            assert(filter_holds(obs, f2[i].0@, f2[i].1, c2[i]));
        }
        assert(filter_holds(obs, f2[filters.len() as int].0@, f2[filters.len() as int].1, c2[filters.len() as int]));
    }
    if filters_hold(obs, filters, checks) && filter_holds(obs, extra.0@, extra.1, extra_checks) {
        assert forall|i: int| 0 <= i < f2.len() implies #[trigger] filter_holds(
            obs,
            f2[i].0@,
            f2[i].1,
            c2[i],
        ) by {
            if i < filters.len() {
                assert(filter_holds(obs, filters[i].0@, filters[i].1, checks[i]));
            }
        }
    }
}

} // verus!
