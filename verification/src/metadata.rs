use vstd::prelude::*;
use crate::json::JsonValue;
use crate::decode::from_serde_value;

verus! {

/// What the filtering and grouping logic reads of an observation: its
/// timestamp (milliseconds since the Unix epoch) and its metadata, a list of
/// named JSON values (as a map yields them: each name once).
pub struct ObservationData {
    pub timestamp: u64,
    pub metadata: Vec<(String, JsonValue)>,
}

impl ObservationData {
    /// The data of an observation with this timestamp and these metadata
    /// entries, each serde_json value held as the library holds one.
    pub fn from_parts(timestamp: u64, metadata: &Vec<(String, serde_json::Value)>) -> (data:
        ObservationData)
        ensures
            data.timestamp == timestamp,
            data.metadata@.len() == metadata@.len(),
            forall|i: int|
                0 <= i < metadata@.len() ==> #[trigger] data.metadata@[i].0 == metadata@[i].0,
            forall|i: int|
                0 <= i < metadata@.len() ==> call_ensures(
                    from_serde_value,
                    (&metadata@[i].1,),
                    #[trigger] data.metadata@[i].1,
                ),
    {
        let mut entries: Vec<(String, JsonValue)> = Vec::new();
        let n = metadata.len();
        for i in 0..n
            invariant
                n == metadata@.len(),
                entries@.len() == i,
                forall|j: int| 0 <= j < i ==> #[trigger] entries@[j].0 == metadata@[j].0,
                forall|j: int|
                    0 <= j < i ==> call_ensures(from_serde_value, (&metadata@[j].1,), #[trigger] entries@[j].1),
        {
            let name = metadata[i].0.clone();
            let convert = from_serde_value;
            let value = convert(&metadata[i].1);
            entries.push((name, value));
        }
        ObservationData { timestamp, metadata: entries }
    }
}

/// `i` is the first position of `metadata` whose name is `key`.
pub open spec fn is_first_key(metadata: Seq<(String, JsonValue)>, key: Seq<char>, i: int) -> bool {
    &&& 0 <= i < metadata.len()
    &&& metadata[i].0@ == key
    &&& forall|j: int| 0 <= j < i ==> #[trigger] metadata[j].0@ != key
}

/// The value named `key`, if there is one.
pub open spec fn metadata_value(metadata: Seq<(String, JsonValue)>, key: Seq<char>) -> Option<
    JsonValue,
> {
    if exists|i: int| is_first_key(metadata, key, i) {
        Some(metadata[choose|i: int| is_first_key(metadata, key, i)].1)
    } else {
        None
    }
}

/// In the data built from metadata entries, the value found under a name is
/// converted from the value given first under that name, and a name that is
/// not given finds nothing.
pub proof fn lemma_from_parts_lookup(
    metadata: Seq<(String, serde_json::Value)>,
    data: ObservationData,
    key: Seq<char>,
)
    requires
        data.metadata@.len() == metadata.len(),
        forall|i: int| 0 <= i < metadata.len() ==> #[trigger] data.metadata@[i].0 == metadata[i].0,
        forall|i: int|
            0 <= i < metadata.len() ==> call_ensures(
                from_serde_value,
                (&metadata[i].1,),
                #[trigger] data.metadata@[i].1,
            ),
    ensures
        match metadata_value(data.metadata@, key) {
            Some(v) => exists|i: int|
                0 <= i < metadata.len() && metadata[i].0@ == key && (forall|j: int|
                    0 <= j < i ==> #[trigger] metadata[j].0@ != key) && call_ensures(
                    from_serde_value,
                    (&metadata[i].1,),
                    v,
                ),
            None => forall|i: int| 0 <= i < metadata.len() ==> #[trigger] metadata[i].0@ != key,
        },
{
    let m = data.metadata@;
    if exists|i: int| is_first_key(m, key, i) {
        let i = choose|i: int| is_first_key(m, key, i);
        assert(m[i].0 == metadata[i].0);
        assert forall|j: int| 0 <= j < i implies #[trigger] metadata[j].0@ != key by {
            assert(m[j].0 == metadata[j].0);
            assert(m[j].0@ != key);
        }
        assert(call_ensures(from_serde_value, (&metadata[i].1,), m[i].1));
    } else {
        assert forall|i: int| 0 <= i < metadata.len() implies #[trigger] metadata[i].0@ != key by {
            if metadata[i].0@ == key {
                assert(m[i].0 == metadata[i].0);
                lemma_first_position_exists(m, key, i);
            }
        }
    }
}

/// When some position holds the name, a first such position exists.
proof fn lemma_first_position_exists(m: Seq<(String, JsonValue)>, key: Seq<char>, i: int)
    requires
        0 <= i < m.len(),
        m[i].0@ == key,
    ensures
        exists|f: int| is_first_key(m, key, f),
    decreases i,
{
    if forall|j: int| 0 <= j < i ==> #[trigger] m[j].0@ != key {
        assert(is_first_key(m, key, i));
    } else {
        let j = choose|j: int| 0 <= j < i && #[trigger] m[j].0@ == key;
        lemma_first_position_exists(m, key, j);
    }
}

/// The value named `key`, if there is one (`HashMap::get`).
pub fn lookup<'a>(metadata: &'a Vec<(String, JsonValue)>, key: &String) -> (r: Option<&'a JsonValue>)
    ensures
        match r {
            Some(v) => metadata_value(metadata@, key@) == Some(*v),
            None => metadata_value(metadata@, key@) is None,
        },
{
    let n = metadata.len();
    for i in 0..n
        invariant
            n == metadata@.len(),
            forall|j: int| 0 <= j < i ==> #[trigger] metadata@[j].0@ != key@,
    {
        if metadata[i].0 == *key {
            proof {
                assert(is_first_key(metadata@, key@, i as int));
                let c = choose|c: int| is_first_key(metadata@, key@, c);
                if c < i {
                    assert(metadata@[c].0@ != key@);
                }
                if c > i {
                    assert(metadata@[i as int].0@ != key@);
                }
            }
            return Some(&metadata[i].1);
        }
    }
    proof {
        assert forall|c: int| !is_first_key(metadata@, key@, c) by {
            if 0 <= c < n {
                assert(metadata@[c].0@ != key@);
            }
        }
    }
    None
}

} // verus!
