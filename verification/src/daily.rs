use vstd::prelude::*;
use crate::json::{decimal, digit_char, digits_value, lemma_decimal_reads_back};
use crate::decode::{decode_u64_object, decoded_u64_object};
use crate::partition::{
    in_first_occurrence_order, is_grouping, keyed_count, lemma_file_into_group, lemma_open_group,
    lemma_pass_over, lemma_grouping_unique, total_members,
};

verus! {

/// Milliseconds in a day.
pub const MS_PER_DAY: u64 = 86_400_000;

/// The day, counted from the Unix epoch, that a millisecond timestamp falls on.
pub open spec fn day_of(timestamp: u64) -> u64 {
    (timestamp / MS_PER_DAY) as u64
}

/// The day of each timestamp that lies in `start..=end`, by index; nothing
/// for a timestamp outside that range.
pub open spec fn day_keys(timestamps: Seq<u64>, start: u64, end: u64) -> spec_fn(int) -> Option<
    u64,
> {
    |i: int|
        if start <= timestamps[i] && timestamps[i] <= end {
            Some(day_of(timestamps[i]))
        } else {
            None
        }
}

/// The range that a date-range request asks for: its start, else 0, and
/// its end, else the largest timestamp.
pub fn date_range_bounds(start: Option<u64>, end: Option<u64>) -> (range: (u64, u64))
    ensures
        range.0 == match start {
            Some(s) => s,
            None => 0,
        },
        range.1 == match end {
            Some(e) => e,
            None => u64::MAX,
        },
{
    let s = match start {
        Some(s) => s,
        None => 0,
    };
    let e = match end {
        Some(e) => e,
        None => u64::MAX,
    };
    (s, e)
}

/// The observations of one day: the day and the indices of its members.
pub struct DayGroup {
    pub day: u64,
    pub members: Vec<usize>,
}

impl View for DayGroup {
    type V = (u64, Seq<usize>);

    open spec fn view(&self) -> (u64, Seq<usize>) {
        (self.day, self.members@)
    }
}

pub open spec fn day_groups_view(groups: Seq<DayGroup>) -> Seq<(u64, Seq<usize>)> {
    groups.map_values(|g: DayGroup| g@)
}

fn find_day(groups: &Vec<DayGroup>, day: u64) -> (r: Option<usize>)
    ensures
        match r {
            Some(k) => k < groups@.len() && groups@[k as int].day == day,
            None => forall|k: int| 0 <= k < groups@.len() ==> #[trigger] groups@[k].day != day,
        },
{
    let n = groups.len();
    for k in 0..n
        invariant
            n == groups@.len(),
            forall|j: int| 0 <= j < k ==> #[trigger] groups@[j].day != day,
    {
        if groups[k].day == day {
            return Some(k);
        }
    }
    None
}

/// Groups the timestamps that lie in `start..=end` by the day they fall
/// on: one group per day, in the order in which the days first occur, each
/// holding the indices of its timestamps in their order. Timestamps outside
/// the range are left out.
pub fn group_by_day(timestamps: &Vec<u64>, start: u64, end: u64) -> (groups: Vec<DayGroup>)
    ensures
        is_grouping(
            day_groups_view(groups@),
            timestamps@.len(),
            day_keys(timestamps@, start, end),
        ),
        total_members(day_groups_view(groups@)) == keyed_count(
            timestamps@.len(),
            day_keys(timestamps@, start, end),
        ),
        in_first_occurrence_order(day_groups_view(groups@)),
{
    let ghost key_of = day_keys(timestamps@, start, end);
    let mut groups: Vec<DayGroup> = Vec::new();
    let n = timestamps.len();
    for i in 0..n
        invariant
            n == timestamps@.len(),
            key_of == day_keys(timestamps@, start, end),
            is_grouping(day_groups_view(groups@), i as nat, key_of),
            total_members(day_groups_view(groups@)) == keyed_count(i as nat, key_of),
            in_first_occurrence_order(day_groups_view(groups@)),
    {
        let ts = timestamps[i];
        let ghost old_view = day_groups_view(groups@);
        assert(keyed_count((i + 1) as nat, key_of) == keyed_count(i as nat, key_of) + if key_of(
            i as int,
        ) is Some {
            1nat
        } else {
            0nat
        });
        if start <= ts && ts <= end {
            let day = ts / MS_PER_DAY;
            match find_day(&groups, day) {
                Some(k) => {
                    let mut g = DayGroup { day: 0, members: Vec::new() };
                    groups.set_and_swap(k, &mut g);
                    g.members.push(i);
                    groups.set(k, g);
                    proof {
                        assert(day_groups_view(groups@) =~= old_view.update(
                            k as int,
                            (old_view[k as int].0, old_view[k as int].1.push(i)),
                        ));
                        lemma_file_into_group(old_view, i, key_of, k as int);
                    }
                },
                None => {
                    let mut members = Vec::new();
                    members.push(i);
                    groups.push(DayGroup { day, members });
                    proof {
                        assert(day_groups_view(groups@) =~= old_view.push((day, seq![i])));
                        lemma_open_group(old_view, i, key_of, day);
                    }
                },
            }
        } else {
            proof {
                lemma_pass_over(old_view, i, key_of);
            }
        }
    }
    groups
}

/// The text of one decimal digit.
fn digit_text(d: u64) -> (text: &'static str)
    requires
        d < 10,
    ensures
        text@ == seq![digit_char(d as nat)],
{
    if d == 0 {
        proof {
            reveal_strlit("0");
        }
        "0"
    } else if d == 1 {
        proof {
            reveal_strlit("1");
        }
        "1"
    } else if d == 2 {
        proof {
            reveal_strlit("2");
        }
        "2"
    } else if d == 3 {
        proof {
            reveal_strlit("3");
        }
        "3"
    } else if d == 4 {
        proof {
            reveal_strlit("4");
        }
        "4"
    } else if d == 5 {
        proof {
            reveal_strlit("5");
        }
        "5"
    } else if d == 6 {
        proof {
            reveal_strlit("6");
        }
        "6"
    } else if d == 7 {
        proof {
            reveal_strlit("7");
        }
        "7"
    } else if d == 8 {
        proof {
            reveal_strlit("8");
        }
        "8"
    } else {
        proof {
            reveal_strlit("9");
        }
        "9"
    }
}

/// Decimal text of a `u64`, most significant digit first.
fn u64_text(n: u64) -> (text: String)
    ensures
        text@ == decimal(n as nat),
    decreases n,
{
    if n < 10 {
        String::from_str(digit_text(n))
    } else {
        let mut text = u64_text(n / 10);
        text.append(digit_text(n % 10));
        text
    }
}

/// The name of a day's entry in the daily metrics: `day-` and the day.
pub fn day_label(day: u64) -> (label: String)
    ensures
        label@ == "day-"@ + decimal(day as nat),
        label@.skip(4) == decimal(day as nat),
        digits_value(label@.skip(4)) == day,
{
    let mut label = String::from_str("day-");
    let digits = u64_text(day);
    label.append(digits.as_str());
    proof {
        reveal_strlit("day-");
        assert(label@.skip(4) =~= decimal(day as nat));
        lemma_decimal_reads_back(day as nat);
    }
    label
}

/// The date of a day's entry: the timestamp at which the day starts.
pub fn day_date(day: u64) -> (date: String)
    requires
        day * MS_PER_DAY <= u64::MAX,
    ensures
        date@ == decimal((day * MS_PER_DAY) as nat),
        digits_value(date@) == day * MS_PER_DAY,
{
    proof {
        lemma_decimal_reads_back((day * MS_PER_DAY) as nat);
    }
    u64_text(day * MS_PER_DAY)
}

/// A timestamp falls on the day that `day_of` gives: at or after the day's
/// start and before the next day's.
pub proof fn lemma_day_contains_timestamp(timestamp: u64)
    ensures
        day_of(timestamp) * MS_PER_DAY <= timestamp,
        timestamp < (day_of(timestamp) + 1) * MS_PER_DAY,
{
    let d = timestamp / MS_PER_DAY;
    assert(d * 86_400_000 <= timestamp && timestamp < (d + 1) * 86_400_000) by (nonlinear_arith)
        requires
            d == timestamp / 86_400_000,
    ;
}

/// Every member of a day's group lies in the requested range and within
/// that day: at or after the day's first millisecond and before the next
/// day's.
pub proof fn lemma_members_fall_on_their_day(
    groups: Seq<(u64, Seq<usize>)>,
    timestamps: Seq<u64>,
    start: u64,
    end: u64,
    g: int,
    j: int,
)
    requires
        is_grouping(groups, timestamps.len(), day_keys(timestamps, start, end)),
        0 <= g < groups.len(),
        0 <= j < groups[g].1.len(),
    ensures
        ({
            let t = timestamps[groups[g].1[j] as int];
            &&& start <= t <= end
            &&& groups[g].0 * MS_PER_DAY <= t
            &&& t < (groups[g].0 + 1) * MS_PER_DAY
        }),
{
    let m = groups[g].1[j];
    assert(day_keys(timestamps, start, end)(m as int) == Some(groups[g].0));
    lemma_day_contains_timestamp(timestamps[m as int]);
}

/// One day's entry of the daily metrics, without the figures that are
/// computed from the observations' values: the day, its name, its date, the
/// number of its observations and their indices.
pub struct DailyEntry {
    pub day: u64,
    pub label: String,
    pub date: String,
    pub count: usize,
    pub members: Vec<usize>,
}

/// An entry's name is `day-` and its day, its date the day's first
/// millisecond, and its count the number of its members.
pub open spec fn entry_is_named(e: DailyEntry) -> bool {
    &&& e.label@ == "day-"@ + decimal(e.day as nat)
    &&& e.date@ == decimal((e.day * MS_PER_DAY) as nat)
    &&& e.count == e.members@.len()
}

pub open spec fn entries_view(entries: Seq<DailyEntry>) -> Seq<(u64, Seq<usize>)> {
    entries.map_values(|e: DailyEntry| (e.day, e.members@))
}

/// `entries` are the daily entries of these timestamps over `start..=end`:
/// a grouping of the in-range timestamps by day, in first-occurrence
/// order, counting every in-range timestamp once, each entry named, dated
/// and counted after its day and members.
pub open spec fn is_daily_result(
    timestamps: Seq<u64>,
    start: u64,
    end: u64,
    entries: Seq<DailyEntry>,
) -> bool {
    &&& is_grouping(entries_view(entries), timestamps.len(), day_keys(timestamps, start, end))
    &&& in_first_occurrence_order(entries_view(entries))
    &&& total_members(entries_view(entries)) == keyed_count(
        timestamps.len(),
        day_keys(timestamps, start, end),
    )
    &&& forall|k: int| 0 <= k < entries.len() ==> #[trigger] entry_is_named(entries[k])
}

/// The daily entries for the observations with these timestamps, over the
/// requested range (`start` defaults to 0, `end` to the largest timestamp):
/// one entry per day on which an in-range observation falls, in the order
/// in which the days first occur.
pub fn daily_entries(timestamps: &Vec<u64>, start: Option<u64>, end: Option<u64>) -> (entries:
    Vec<DailyEntry>)
    ensures
        is_daily_result(
            timestamps@,
            match start {
                Some(s) => s,
                None => 0,
            },
            match end {
                Some(e) => e,
                None => u64::MAX,
            },
            entries@,
        ),
{
    let (s, e) = date_range_bounds(start, end);
    let groups = group_by_day(timestamps, s, e);
    let ghost key_of = day_keys(timestamps@, s, e);
    let ghost gview = day_groups_view(groups@);
    let mut entries: Vec<DailyEntry> = Vec::new();
    let n = groups.len();
    for k in 0..n
        invariant
            n == groups@.len(),
            gview == day_groups_view(groups@),
            is_grouping(gview, timestamps@.len(), key_of),
            in_first_occurrence_order(gview),
            key_of == day_keys(timestamps@, s, e),
            entries@.len() == k,
            forall|j: int| 0 <= j < k ==> #[trigger] entries_view(entries@)[j] == gview[j],
            forall|j: int| 0 <= j < k ==> #[trigger] entry_is_named(entries@[j]),
    {
        let day = groups[k].day;
        proof {
            assert(gview[k as int].1.len() > 0);
            let m = gview[k as int].1[0];
            assert(m < timestamps@.len());
            assert(key_of(m as int) == Some(gview[k as int].0));
            lemma_day_contains_timestamp(timestamps@[m as int]);
        }
        let members = groups[k].members.clone();
        assert(members@ =~= groups@[k as int].members@);
        let entry = DailyEntry {
            day,
            label: day_label(day),
            date: day_date(day),
            count: members.len(),
            members,
        };
        let ghost prev = entries@;
        entries.push(entry);
        proof {
            assert(entries@ == prev.push(entry));
            assert(entries@[k as int] == entry);
            assert(entry.label@ == "day-"@ + decimal(entry.day as nat));
            assert(entry.date@ == decimal((entry.day * MS_PER_DAY) as nat));
            assert(entry.count == entry.members@.len());
            assert(entries_view(entries@)[k as int] == (entry.day, entry.members@));
            assert(gview[k as int] == groups@[k as int]@);
            assert(entry_is_named(entry));
            assert forall|j: int| 0 <= j < k + 1 implies #[trigger] entry_is_named(entries@[j]) by {
                if j < k {
                    assert(entries@[j] == prev[j]);
                }
            }
            assert forall|j: int| 0 <= j < k + 1 implies #[trigger] entries_view(entries@)[j] == gview[j] by {
                if j < k {
                    assert(entries@[j] == prev[j]);
                    assert(entries_view(prev)[j] == gview[j]);
                }
            }
        }
    }
    proof {
        assert(entries_view(entries@) =~= gview);
    }
    entries
}

/// The start of the range that a decoded date-range object asks for: its
/// `startTimestamp`, else 0.
pub open spec fn range_start(range: Map<Seq<char>, u64>) -> u64 {
    if range.contains_key("startTimestamp"@) {
        range["startTimestamp"@]
    } else {
        0
    }
}

/// The end of the range that a decoded date-range object asks for: its
/// `endTimestamp`, else the largest timestamp.
pub open spec fn range_end(range: Map<Seq<char>, u64>) -> u64 {
    if range.contains_key("endTimestamp"@) {
        range["endTimestamp"@]
    } else {
        u64::MAX
    }
}

fn range_value(entries: &Vec<(String, u64)>, name: &str, Ghost(range): Ghost<Map<Seq<char>, u64>>) -> (r:
    Option<u64>)
    requires
        forall|i: int|
            0 <= i < entries@.len() ==> range.contains_key(#[trigger] entries@[i].0@)
                && range[entries@[i].0@] == entries@[i].1,
        forall|k: Seq<char>| #[trigger]
            range.contains_key(k) ==> exists|i: int| 0 <= i < entries@.len() && #[trigger] entries@[i].0@ == k,
    ensures
        r == if range.contains_key(name@) {
            Some(range[name@])
        } else {
            None
        },
{
    let wanted = String::from_str(name);
    let n = entries.len();
    for i in 0..n
        invariant
            n == entries@.len(),
            wanted@ == name@,
            forall|j: int| 0 <= j < i ==> #[trigger] entries@[j].0@ != name@,
            forall|j: int|
                0 <= j < entries@.len() ==> range.contains_key(#[trigger] entries@[j].0@)
                    && range[entries@[j].0@] == entries@[j].1,
    {
        if entries[i].0 == wanted {
            assert(range.contains_key(entries@[i as int].0@));
            return Some(entries[i].1);
        }
    }
    proof {
        if range.contains_key(name@) {
            let i = choose|i: int| 0 <= i < entries@.len() && #[trigger] entries@[i].0@ == name@;
            assert(entries@[i].0@ != name@);
        }
    }
    None
}

/// The daily entries of a daily-metrics request: the timestamps of its
/// observations, and the date range as the text of a JSON object with
/// optional `startTimestamp` and `endTimestamp`. Nothing, rather than a
/// partial result, when that text is not such an object.
pub fn daily_request(timestamps: &Vec<u64>, range_text: &str) -> (entries: Option<Vec<DailyEntry>>)
    ensures
        entries is None <==> decoded_u64_object(range_text@) is None,
        entries matches Some(es) ==> (decoded_u64_object(range_text@) matches Some(m)
            && is_daily_result(timestamps@, range_start(m), range_end(m), es@)),
        entries matches Some(es) ==> (decoded_u64_object(range_text@) matches Some(m) && forall|
            k: int,
            j: int,
        |
            0 <= k < es@.len() && 0 <= j < es@[k].members@.len() ==> {
                let i = #[trigger] es@[k].members@[j];
                &&& i < timestamps@.len()
                &&& m.contains_key("startTimestamp"@) ==> m["startTimestamp"@] <= timestamps@[i as int]
                &&& m.contains_key("endTimestamp"@) ==> timestamps@[i as int] <= m["endTimestamp"@]
                &&& timestamps@[i as int] / MS_PER_DAY == es@[k].day
            }),
{
    let pairs = match decode_u64_object(range_text) {
        Some(p) => p,
        None => {
            return None;
        },
    };
    let ghost range = decoded_u64_object(range_text@)->0;
    let start = range_value(&pairs, "startTimestamp", Ghost(range));
    let end = range_value(&pairs, "endTimestamp", Ghost(range));
    let entries = daily_entries(timestamps, start, end);
    proof {
        lemma_daily_result_respects_range(timestamps@, range, entries@);
    }
    Some(entries)
}

/// What a daily result over a decoded date range holds, read off the range
/// itself: every member of every entry is an observation whose timestamp is
/// at or after the range's `startTimestamp` and at or before its
/// `endTimestamp` (where the range gives them) and falls on the entry's day.
pub proof fn lemma_daily_result_respects_range(
    timestamps: Seq<u64>,
    range: Map<Seq<char>, u64>,
    entries: Seq<DailyEntry>,
)
    requires
        is_daily_result(timestamps, range_start(range), range_end(range), entries),
    ensures
        forall|k: int, j: int|
            0 <= k < entries.len() && 0 <= j < entries[k].members@.len() ==> {
                let i = #[trigger] entries[k].members@[j];
                &&& i < timestamps.len()
                &&& range.contains_key("startTimestamp"@) ==> range["startTimestamp"@]
                    <= timestamps[i as int]
                &&& range.contains_key("endTimestamp"@) ==> timestamps[i as int]
                    <= range["endTimestamp"@]
                &&& timestamps[i as int] / MS_PER_DAY == entries[k].day
            },
{
    let view = entries_view(entries);
    let key_of = day_keys(timestamps, range_start(range), range_end(range));
    assert forall|k: int, j: int|
        0 <= k < entries.len() && 0 <= j < entries[k].members@.len() implies {
            let i = #[trigger] entries[k].members@[j];
            &&& i < timestamps.len()
            &&& range.contains_key("startTimestamp"@) ==> range["startTimestamp"@]
                <= timestamps[i as int]
            &&& range.contains_key("endTimestamp"@) ==> timestamps[i as int]
                <= range["endTimestamp"@]
            &&& timestamps[i as int] / MS_PER_DAY == entries[k].day
        } by {
        assert(view[k].1[j] == entries[k].members@[j]);
        assert(view[k].1[j] < timestamps.len());
        assert(key_of(view[k].1[j] as int) == Some(view[k].0));
    }
}

/// Every observation whose timestamp is at or after the range's
/// `startTimestamp` and at or before its `endTimestamp` (where the range
/// gives them) is a member of some entry of a daily result over that range.
pub proof fn lemma_daily_result_covers_range(
    timestamps: Seq<u64>,
    range: Map<Seq<char>, u64>,
    entries: Seq<DailyEntry>,
    i: int,
)
    requires
        is_daily_result(timestamps, range_start(range), range_end(range), entries),
        0 <= i < timestamps.len(),
        range.contains_key("startTimestamp"@) ==> range["startTimestamp"@] <= timestamps[i],
        range.contains_key("endTimestamp"@) ==> timestamps[i] <= range["endTimestamp"@],
    ensures
        exists|k: int, j: int|
            0 <= k < entries.len() && 0 <= j < entries[k].members@.len()
                && #[trigger] entries[k].members@[j] == i,
{
    let view = entries_view(entries);
    let key_of = day_keys(timestamps, range_start(range), range_end(range));
    assert(key_of(i) is Some);
    let (k, j) = choose|k: int, j: int|
        0 <= k < view.len() && 0 <= j < view[k].1.len() && #[trigger] view[k].1[j] == i;
    assert(entries[k].members@[j] == view[k].1[j]);
}

/// Two daily results of the same timestamps over the same range are the
/// same entries, in the same order.
pub proof fn lemma_daily_result_unique(
    timestamps: Seq<u64>,
    start: u64,
    end: u64,
    a: Seq<DailyEntry>,
    b: Seq<DailyEntry>,
)
    requires
        is_daily_result(timestamps, start, end, a),
        is_daily_result(timestamps, start, end, b),
    ensures
        entries_view(a) == entries_view(b),
        forall|k: int|
            0 <= k < a.len() ==> #[trigger] a[k].label@ == b[k].label@ && a[k].date@ == b[k].date@
                && a[k].count == b[k].count,
{
    lemma_grouping_unique(
        entries_view(a),
        entries_view(b),
        timestamps.len(),
        day_keys(timestamps, start, end),
    );
    assert forall|k: int| 0 <= k < a.len() implies #[trigger] a[k].label@ == b[k].label@
        && a[k].date@ == b[k].date@ && a[k].count == b[k].count by {
        assert(entries_view(a)[k] == entries_view(b)[k]);
        assert(entry_is_named(a[k]));
        assert(entry_is_named(b[k]));
    }
}

/// A date range that names neither end asks for every timestamp: its daily
/// entries are those of the range from 0 to the largest timestamp.
pub proof fn lemma_missing_range_ends_unbounded(
    timestamps: Seq<u64>,
    range: Map<Seq<char>, u64>,
    a: Seq<DailyEntry>,
    b: Seq<DailyEntry>,
)
    requires
        !range.contains_key("startTimestamp"@),
        !range.contains_key("endTimestamp"@),
        is_daily_result(timestamps, range_start(range), range_end(range), a),
        is_daily_result(timestamps, 0, u64::MAX, b),
    ensures
        entries_view(a) == entries_view(b),
{
    lemma_daily_result_unique(timestamps, 0, u64::MAX, a, b);
}

} // verus!
