use vstd::prelude::*;
use crate::json::{JsonValue, key_text, null_text};
use crate::metadata::{ObservationData, metadata_value, lookup};
use crate::partition::{
    in_first_occurrence_order, is_grouping, lemma_file_into_group, lemma_open_group, total_members,
};

verus! {

/// The part that one grouping key contributes to an observation's group
/// key: the text of the metadata value of that name, or `null` when the
/// observation has none.
pub open spec fn key_part(metadata: Seq<(String, JsonValue)>, name: Seq<char>) -> Seq<char> {
    match metadata_value(metadata, name) {
        Some(v) => key_text(v),
        None => null_text(),
    }
}

/// The parts joined by `sep`, as `[String]::join` joins them.
pub open spec fn join(parts: Seq<Seq<char>>, sep: Seq<char>) -> Seq<char>
    decreases parts.len(),
{
    if parts.len() == 0 {
        seq![]
    } else if parts.len() == 1 {
        parts[0]
    } else {
        join(parts.drop_last(), sep) + sep + parts.last()
    }
}

pub open spec fn key_parts(metadata: Seq<(String, JsonValue)>, group_by: Seq<String>) -> Seq<
    Seq<char>,
> {
    group_by.map_values(|name: String| key_part(metadata, name@))
}

/// The group key of an observation with this metadata: the parts for the
/// grouping keys, in their order, joined by `|`.
pub open spec fn metadata_group_key(
    metadata: Seq<(String, JsonValue)>,
    group_by: Seq<String>,
) -> Seq<char> {
    join(key_parts(metadata, group_by), seq!['|'])
}

/// The group key of each observation, by index.
pub open spec fn observation_keys(
    observations: Seq<ObservationData>,
    group_by: Seq<String>,
) -> spec_fn(int) -> Option<Seq<char>> {
    |i: int| Some(metadata_group_key(observations[i].metadata@, group_by))
}

/// A group of observations: its key and the indices of its members.
pub struct Group {
    pub key: String,
    pub members: Vec<usize>,
}

impl View for Group {
    type V = (Seq<char>, Seq<usize>);

    open spec fn view(&self) -> (Seq<char>, Seq<usize>) {
        (self.key@, self.members@)
    }
}

pub open spec fn groups_view(groups: Seq<Group>) -> Seq<(Seq<char>, Seq<usize>)> {
    groups.map_values(|g: Group| g@)
}

/// The group key of an observation with this metadata.
pub fn group_key(metadata: &Vec<(String, JsonValue)>, group_by: &Vec<String>) -> (key: String)
    ensures
        key@ == metadata_group_key(metadata@, group_by@),
{
    let ghost parts = key_parts(metadata@, group_by@);
    let mut out = String::new();
    let n = group_by.len();
    for i in 0..n
        invariant
            n == group_by@.len(),
            parts == key_parts(metadata@, group_by@),
            out@ == join(parts.take(i as int), seq!['|']),
    {
        proof {
            reveal_strlit("|");
            reveal_strlit("null");
        }
        let part = match lookup(metadata, &group_by[i]) {
            Some(v) => v.key_text(),
            None => String::from_str("null"),
        };
        assert(part@ == parts[i as int]);
        if i > 0 {
            out.append("|");
        }
        out.append(part.as_str());
        proof {
            let t = parts.take(i + 1);
            assert(t.drop_last() =~= parts.take(i as int));
            if i == 0 {
                assert(out@ =~= join(t, seq!['|']));
            } else {
                assert(out@ =~= join(t, seq!['|']));
            }
        }
    }
    assert(parts.take(n as int) =~= parts);
    out
}

/// The position of the group with this key, if there is one.
fn find_group(groups: &Vec<Group>, key: &String) -> (r: Option<usize>)
    ensures
        match r {
            Some(k) => k < groups@.len() && groups@[k as int].key@ == key@,
            None => forall|k: int| 0 <= k < groups@.len() ==> #[trigger] groups@[k].key@ != key@,
        },
{
    let n = groups.len();
    for k in 0..n
        invariant
            n == groups@.len(),
            forall|j: int| 0 <= j < k ==> #[trigger] groups@[j].key@ != key@,
    {
        if groups[k].key == *key {
            return Some(k);
        }
    }
    None
}

/// Groups the observations by their group key (see `group_key`): one group
/// per distinct key, in the order in which the keys first occur, each
/// holding the indices of its observations in their order.
pub fn group_observations(observations: &Vec<ObservationData>, group_by: &Vec<String>) -> (groups:
    Vec<Group>)
    ensures
        is_grouping(
            groups_view(groups@),
            observations@.len(),
            observation_keys(observations@, group_by@),
        ),
        total_members(groups_view(groups@)) == observations@.len(),
        in_first_occurrence_order(groups_view(groups@)),
{
    let ghost key_of = observation_keys(observations@, group_by@);
    let mut groups: Vec<Group> = Vec::new();
    let n = observations.len();
    for i in 0..n
        invariant
            n == observations@.len(),
            key_of == observation_keys(observations@, group_by@),
            is_grouping(groups_view(groups@), i as nat, key_of),
            total_members(groups_view(groups@)) == i,
            in_first_occurrence_order(groups_view(groups@)),
    {
        let key = group_key(&observations[i].metadata, group_by);
        let ghost old_view = groups_view(groups@);
        match find_group(&groups, &key) {
            Some(k) => {
                let mut g = Group { key: String::new(), members: Vec::new() };
                groups.set_and_swap(k, &mut g);
                g.members.push(i);
                groups.set(k, g);
                proof {
                    assert(groups_view(groups@) =~= old_view.update(
                        k as int,
                        (old_view[k as int].0, old_view[k as int].1.push(i)),
                    ));
                    lemma_file_into_group(old_view, i, key_of, k as int);
                }
            },
            None => {
                let ghost key_view = key@;
                let mut members = Vec::new();
                members.push(i);
                groups.push(Group { key, members });
                proof {
                    assert(groups_view(groups@) =~= old_view.push((key_view, seq![i])));
                    lemma_open_group(old_view, i, key_of, key_view);
                }
            },
        }
    }
    groups
}

} // verus!
