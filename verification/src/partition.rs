use vstd::prelude::*;

verus! {

/// What it means for `groups` (each a key and the indices of its members)
/// to group the items `0..n`, where `key_of(i)` is the key of item `i`, or
/// nothing when the item belongs to no group:
/// - every group has a member;
/// - every member is an item, filed under the item's key;
/// - within a group, members keep the items' order;
/// - no two groups share a key;
/// - every item that has a key is a member of some group.
pub open spec fn is_grouping<K>(
    groups: Seq<(K, Seq<usize>)>,
    n: nat,
    key_of: spec_fn(int) -> Option<K>,
) -> bool {
    &&& forall|g: int| 0 <= g < groups.len() ==> #[trigger] groups[g].1.len() > 0
    &&& forall|g: int, j: int|
        0 <= g < groups.len() && 0 <= j < groups[g].1.len() ==> {
            &&& #[trigger] groups[g].1[j] < n
            &&& key_of(groups[g].1[j] as int) == Some(groups[g].0)
        }
    &&& forall|g: int, j1: int, j2: int|
        0 <= g < groups.len() && 0 <= j1 < j2 < groups[g].1.len() ==> #[trigger] groups[g].1[j1]
            < #[trigger] groups[g].1[j2]
    &&& forall|g1: int, g2: int|
        0 <= g1 < groups.len() && 0 <= g2 < groups.len() && g1 != g2 ==> #[trigger] groups[g1].0
            != #[trigger] groups[g2].0
    &&& forall|i: int|
        0 <= i < n && #[trigger] key_of(i) is Some ==> exists|g: int, j: int|
            0 <= g < groups.len() && 0 <= j < groups[g].1.len() && #[trigger] groups[g].1[j] == i
}

/// The groups come in the order of their first members, that is, in the
/// order in which their keys first occur among the items.
pub open spec fn in_first_occurrence_order<K>(groups: Seq<(K, Seq<usize>)>) -> bool {
    forall|g1: int, g2: int|
        0 <= g1 < g2 < groups.len() ==> #[trigger] groups[g1].1[0] < #[trigger] groups[g2].1[0]
}

/// Number of members over all groups.
pub open spec fn total_members<K>(groups: Seq<(K, Seq<usize>)>) -> nat
    decreases groups.len(),
{
    if groups.len() == 0 {
        0
    } else {
        total_members(groups.drop_last()) + groups.last().1.len()
    }
}

/// Number of items among `0..n` that have a key.
pub open spec fn keyed_count<K>(n: nat, key_of: spec_fn(int) -> Option<K>) -> nat
    decreases n,
{
    if n == 0 {
        0
    } else {
        keyed_count((n - 1) as nat, key_of) + if key_of(n - 1) is Some {
            1nat
        } else {
            0nat
        }
    }
}

pub proof fn lemma_total_members_push<K>(groups: Seq<(K, Seq<usize>)>, g: (K, Seq<usize>))
    ensures
        total_members(groups.push(g)) == total_members(groups) + g.1.len(),
{
    assert(groups.push(g).drop_last() =~= groups);
}

pub proof fn lemma_total_members_update<K>(
    groups: Seq<(K, Seq<usize>)>,
    k: int,
    g: (K, Seq<usize>),
)
    requires
        0 <= k < groups.len(),
    ensures
        total_members(groups.update(k, g)) == total_members(groups) - groups[k].1.len()
            + g.1.len(),
    decreases groups.len(),
{
    let u = groups.update(k, g);
    if k == groups.len() - 1 {
        assert(u.drop_last() =~= groups.drop_last());
    } else {
        lemma_total_members_update(groups.drop_last(), k, g);
        assert(u.drop_last() =~= groups.drop_last().update(k, g));
    }
}

/// Each item that has a key lies in exactly one group, at exactly one
/// position; an item without a key lies in none.
pub proof fn lemma_grouping_places_each_item_once<K>(
    groups: Seq<(K, Seq<usize>)>,
    n: nat,
    key_of: spec_fn(int) -> Option<K>,
    i: int,
)
    requires
        is_grouping(groups, n, key_of),
        0 <= i < n,
    ensures
        key_of(i) is Some ==> exists|g: int, j: int|
            0 <= g < groups.len() && 0 <= j < groups[g].1.len() && #[trigger] groups[g].1[j] == i,
        forall|g1: int, j1: int, g2: int, j2: int|
            0 <= g1 < groups.len() && 0 <= j1 < groups[g1].1.len() && 0 <= g2 < groups.len() && 0
                <= j2 < groups[g2].1.len() && #[trigger] groups[g1].1[j1] == i
                && #[trigger] groups[g2].1[j2] == i ==> g1 == g2 && j1 == j2,
        key_of(i) is None ==> forall|g: int, j: int|
            0 <= g < groups.len() && 0 <= j < groups[g].1.len() ==> #[trigger] groups[g].1[j]
                != i,
{
    assert forall|g1: int, j1: int, g2: int, j2: int|
        0 <= g1 < groups.len() && 0 <= j1 < groups[g1].1.len() && 0 <= g2 < groups.len() && 0 <= j2
            < groups[g2].1.len() && #[trigger] groups[g1].1[j1] == i && #[trigger] groups[g2].1[j2]
            == i implies g1 == g2 && j1 == j2 by {
        assert(key_of(groups[g1].1[j1] as int) == Some(groups[g1].0));
        assert(key_of(groups[g2].1[j2] as int) == Some(groups[g2].0));
        if g1 != g2 {
            assert(groups[g1].0 != groups[g2].0);
        }
        if j1 < j2 {
            assert(groups[g1].1[j1] < groups[g1].1[j2]);
        }
        if j2 < j1 {
            assert(groups[g1].1[j2] < groups[g1].1[j1]);
        }
    }
    assert forall|g: int, j: int|
        key_of(i) is None && 0 <= g < groups.len() && 0 <= j < groups[g].1.len() implies #[trigger] groups[g].1[j]
            != i by {
        assert(key_of(groups[g].1[j] as int) == Some(groups[g].0));
    }
}

/// Filing item `i` into the existing group `k`, whose key is the item's,
/// keeps the grouping a grouping of one more item, in the same order, with
/// one more member.
pub proof fn lemma_file_into_group<K>(
    groups: Seq<(K, Seq<usize>)>,
    i: usize,
    key_of: spec_fn(int) -> Option<K>,
    k: int,
)
    requires
        is_grouping(groups, i as nat, key_of),
        in_first_occurrence_order(groups),
        0 <= k < groups.len(),
        key_of(i as int) == Some(groups[k].0),
    ensures
        ({
            let filed = groups.update(k, (groups[k].0, groups[k].1.push(i)));
            &&& is_grouping(filed, (i + 1) as nat, key_of)
            &&& in_first_occurrence_order(filed)
            &&& total_members(filed) == total_members(groups) + 1
        }),
{
    let new_view = groups.update(k, (groups[k].0, groups[k].1.push(i)));
    lemma_total_members_update(groups, k, (groups[k].0, groups[k].1.push(i)));
    assert forall|g: int, j: int|
        0 <= g < new_view.len() && 0 <= j < new_view[g].1.len() implies {
            &&& #[trigger] new_view[g].1[j] < i + 1
            &&& key_of(new_view[g].1[j] as int) == Some(new_view[g].0)
        } by {
        if g == k && j == new_view[g].1.len() - 1 {
        } else {
            assert(new_view[g].1[j] == groups[g].1[j]);
        }
    }
    assert forall|g: int, j1: int, j2: int|
        0 <= g < new_view.len() && 0 <= j1 < j2 < new_view[g].1.len() implies #[trigger] new_view[g].1[j1]
            < #[trigger] new_view[g].1[j2] by {
        assert(new_view[g].1[j1] == groups[g].1[j1]);
        if g == k && j2 == new_view[g].1.len() - 1 {
            assert(groups[g].1[j1] < i);
        } else {
            assert(new_view[g].1[j2] == groups[g].1[j2]);
        }
    }
    assert forall|g1: int, g2: int|
        0 <= g1 < new_view.len() && 0 <= g2 < new_view.len() && g1 != g2 implies #[trigger] new_view[g1].0
            != #[trigger] new_view[g2].0 by {
        assert(groups[g1].0 != groups[g2].0);
    }
    assert forall|x: int| 0 <= x < i + 1 && #[trigger] key_of(x) is Some implies exists|g: int, j: int|
        0 <= g < new_view.len() && 0 <= j < new_view[g].1.len() && #[trigger] new_view[g].1[j] == x by {
        if x == i {
            let j = new_view[k].1.len() - 1;
            assert(new_view[k].1[j] == x);
        } else {
            let (g, j) = choose|g: int, j: int|
                0 <= g < groups.len() && 0 <= j < groups[g].1.len() && #[trigger] groups[g].1[j] == x;
            assert(new_view[g].1[j] == x);
        }
    }
    assert forall|g: int| 0 <= g < new_view.len() implies #[trigger] new_view[g].1.len() > 0 by {
        assert(groups[g].1.len() > 0);
    }
    assert forall|g1: int, g2: int|
        0 <= g1 < g2 < new_view.len() implies #[trigger] new_view[g1].1[0] < #[trigger] new_view[g2].1[0] by {
        assert(groups[g1].1.len() > 0);
        assert(groups[g2].1.len() > 0);
        assert(new_view[g1].1[0] == groups[g1].1[0]);
        assert(new_view[g2].1[0] == groups[g2].1[0]);
    }
}

/// Opening a new group for item `i`, whose key no group has, keeps the
/// grouping a grouping of one more item, in first-occurrence order, with
/// one more member.
pub proof fn lemma_open_group<K>(
    groups: Seq<(K, Seq<usize>)>,
    i: usize,
    key_of: spec_fn(int) -> Option<K>,
    key: K,
)
    requires
        is_grouping(groups, i as nat, key_of),
        in_first_occurrence_order(groups),
        key_of(i as int) == Some(key),
        forall|g: int| 0 <= g < groups.len() ==> #[trigger] groups[g].0 != key,
    ensures
        ({
            let opened = groups.push((key, seq![i]));
            &&& is_grouping(opened, (i + 1) as nat, key_of)
            &&& in_first_occurrence_order(opened)
            &&& total_members(opened) == total_members(groups) + 1
        }),
{
    let new_view = groups.push((key, seq![i]));
    lemma_total_members_push(groups, (key, seq![i]));
    assert forall|g: int, j: int|
        0 <= g < new_view.len() && 0 <= j < new_view[g].1.len() implies {
            &&& #[trigger] new_view[g].1[j] < i + 1
            &&& key_of(new_view[g].1[j] as int) == Some(new_view[g].0)
        } by {
        if g < groups.len() {
            assert(new_view[g] == groups[g]);
        }
    }
    assert forall|g: int, j1: int, j2: int|
        0 <= g < new_view.len() && 0 <= j1 < j2 < new_view[g].1.len() implies #[trigger] new_view[g].1[j1]
            < #[trigger] new_view[g].1[j2] by {
        assert(new_view[g] == groups[g]);
    }
    assert forall|g1: int, g2: int|
        0 <= g1 < new_view.len() && 0 <= g2 < new_view.len() && g1 != g2 implies #[trigger] new_view[g1].0
            != #[trigger] new_view[g2].0 by {
        if g1 < groups.len() && g2 < groups.len() {
            assert(groups[g1].0 != groups[g2].0);
        } else if g1 < groups.len() {
            assert(groups[g1].0 != key);
        } else {
            assert(groups[g2].0 != key);
        }
    }
    assert forall|x: int| 0 <= x < i + 1 && #[trigger] key_of(x) is Some implies exists|g: int, j: int|
        0 <= g < new_view.len() && 0 <= j < new_view[g].1.len() && #[trigger] new_view[g].1[j] == x by {
        if x == i {
            assert(new_view[groups.len() as int].1[0] == x);
        } else {
            let (g, j) = choose|g: int, j: int|
                0 <= g < groups.len() && 0 <= j < groups[g].1.len() && #[trigger] groups[g].1[j] == x;
            assert(new_view[g].1[j] == x);
        }
    }
    assert forall|g: int| 0 <= g < new_view.len() implies #[trigger] new_view[g].1.len() > 0 by {
        if g < groups.len() {
            assert(new_view[g] == groups[g]);
        }
    }
    assert forall|g1: int, g2: int|
        0 <= g1 < g2 < new_view.len() implies #[trigger] new_view[g1].1[0] < #[trigger] new_view[g2].1[0] by {
        assert(new_view[g1] == groups[g1]);
        assert(groups[g1].1.len() > 0);
        if g2 < groups.len() {
            assert(new_view[g2] == groups[g2]);
        } else {
            assert(groups[g1].1[0] < i);
        }
    }
}

/// Passing over item `i`, which has no key, keeps the grouping a grouping
/// of one more item.
pub proof fn lemma_pass_over<K>(
    groups: Seq<(K, Seq<usize>)>,
    i: usize,
    key_of: spec_fn(int) -> Option<K>,
)
    requires
        is_grouping(groups, i as nat, key_of),
        key_of(i as int) is None,
    ensures
        is_grouping(groups, (i + 1) as nat, key_of),
{
    assert forall|x: int| 0 <= x < i + 1 && #[trigger] key_of(x) is Some implies exists|g: int, j: int|
        0 <= g < groups.len() && 0 <= j < groups[g].1.len() && #[trigger] groups[g].1[j] == x by {
        if x < i {
            let (g, j) = choose|g: int, j: int|
                0 <= g < groups.len() && 0 <= j < groups[g].1.len() && #[trigger] groups[g].1[j] == x;
        }
    }
}

pub open spec fn strictly_ascending(s: Seq<usize>) -> bool {
    forall|i: int, j: int| 0 <= i < j < s.len() ==> #[trigger] s[i] < #[trigger] s[j]
}

/// Two strictly ascending sequences with the same elements are equal.
pub proof fn lemma_ascending_same_elements(s: Seq<usize>, t: Seq<usize>)
    requires
        strictly_ascending(s),
        strictly_ascending(t),
        forall|x: usize| s.contains(x) <==> t.contains(x),
    ensures
        s == t,
    decreases s.len(),
{
    if s.len() == 0 {
        if t.len() > 0 {
            assert(t.contains(t[0]));
        }
        assert(s =~= t);
    } else {
        assert(s.contains(s[0]));
        assert(t.contains(s[0]));
        assert(t.len() > 0);
        assert(t.contains(t[0]));
        let i = choose|i: int| 0 <= i < s.len() && s[i] == t[0];
        let j = choose|j: int| 0 <= j < t.len() && t[j] == s[0];
        if i > 0 {
            assert(s[0] < s[i]);
        }
        if j > 0 {
            assert(t[0] < t[j]);
        }
        assert(s[0] == t[0]);
        let s1 = s.drop_first();
        let t1 = t.drop_first();
        assert forall|x: usize| s1.contains(x) implies t1.contains(x) by {
            let a = choose|a: int| 0 <= a < s1.len() && s1[a] == x;
            assert(s[a + 1] == x);
            assert(s[0] < s[a + 1]);
            assert(t.contains(x));
            let b = choose|b: int| 0 <= b < t.len() && t[b] == x;
            assert(b != 0);
            assert(t1[b - 1] == x);
        }
        assert forall|x: usize| t1.contains(x) implies s1.contains(x) by {
            let a = choose|a: int| 0 <= a < t1.len() && t1[a] == x;
            assert(t[a + 1] == x);
            assert(t[0] < t[a + 1]);
            assert(s.contains(x));
            let b = choose|b: int| 0 <= b < s.len() && s[b] == x;
            assert(b != 0);
            assert(s1[b - 1] == x);
        }
        assert(strictly_ascending(s1)) by {
            assert forall|i: int, j: int| 0 <= i < j < s1.len() implies #[trigger] s1[i] < #[trigger] s1[j] by {
                assert(s1[i] == s[i + 1] && s1[j] == s[j + 1]);
            }
        }
        assert(strictly_ascending(t1)) by {
            assert forall|i: int, j: int| 0 <= i < j < t1.len() implies #[trigger] t1[i] < #[trigger] t1[j] by {
                assert(t1[i] == t[i + 1] && t1[j] == t[j + 1]);
            }
        }
        lemma_ascending_same_elements(s1, t1);
        assert(s =~= seq![s[0]] + s1);
        assert(t =~= seq![t[0]] + t1);
    }
}

/// Item `x` is the first item with its key.
pub open spec fn first_of_its_key<K>(n: nat, key_of: spec_fn(int) -> Option<K>, x: usize) -> bool {
    &&& x < n
    &&& key_of(x as int) is Some
    &&& forall|y: int| 0 <= y < x ==> #[trigger] key_of(y) != key_of(x as int)
}

pub open spec fn first_members<K>(groups: Seq<(K, Seq<usize>)>) -> Seq<usize> {
    Seq::new(groups.len(), |g: int| groups[g].1[0])
}

/// In a grouping, the first members of the groups are exactly the items
/// that come first among those with their key.
proof fn lemma_first_members<K>(
    groups: Seq<(K, Seq<usize>)>,
    n: nat,
    key_of: spec_fn(int) -> Option<K>,
    x: usize,
)
    requires
        is_grouping(groups, n, key_of),
    ensures
        first_members(groups).contains(x) <==> first_of_its_key(n, key_of, x),
{
    let f = first_members(groups);
    if f.contains(x) {
        let g = choose|g: int| 0 <= g < f.len() && f[g] == x;
        assert(groups[g].1.len() > 0);
        assert(groups[g].1[0] == x);
        assert(key_of(groups[g].1[0] as int) == Some(groups[g].0));
        assert forall|y: int| 0 <= y < x implies #[trigger] key_of(y) != key_of(x as int) by {
            if key_of(y) == key_of(x as int) {
                let (h, j) = choose|h: int, j: int|
                    0 <= h < groups.len() && 0 <= j < groups[h].1.len() && #[trigger] groups[h].1[j] == y;
                assert(key_of(groups[h].1[j] as int) == Some(groups[h].0));
                if h != g {
                    assert(groups[h].0 != groups[g].0);
                }
                if j > 0 {
                    assert(groups[g].1[0] < groups[g].1[j]);
                }
            }
        }
    }
    if first_of_its_key(n, key_of, x) {
        let (g, j) = choose|g: int, j: int|
            0 <= g < groups.len() && 0 <= j < groups[g].1.len() && #[trigger] groups[g].1[j] == x as int;
        assert(key_of(groups[g].1[j] as int) == Some(groups[g].0));
        if j > 0 {
            assert(groups[g].1[0] < groups[g].1[j]);
            assert(key_of(groups[g].1[0] as int) == Some(groups[g].0));
            assert(key_of(groups[g].1[0] as int) != key_of(x as int));
        }
        assert(f[g] == x);
    }
}

/// An item lies in a group exactly when it has the group's key.
proof fn lemma_group_members<K>(
    groups: Seq<(K, Seq<usize>)>,
    n: nat,
    key_of: spec_fn(int) -> Option<K>,
    g: int,
    x: usize,
)
    requires
        is_grouping(groups, n, key_of),
        0 <= g < groups.len(),
    ensures
        groups[g].1.contains(x) <==> (x < n && key_of(x as int) == Some(groups[g].0)),
{
    if groups[g].1.contains(x) {
        let j = choose|j: int| 0 <= j < groups[g].1.len() && groups[g].1[j] == x;
        assert(groups[g].1[j] < n);
    }
    if x < n && key_of(x as int) == Some(groups[g].0) {
        let (h, j) = choose|h: int, j: int|
            0 <= h < groups.len() && 0 <= j < groups[h].1.len() && #[trigger] groups[h].1[j] == x as int;
        assert(key_of(groups[h].1[j] as int) == Some(groups[h].0));
        if h != g {
            assert(groups[h].0 != groups[g].0);
        }
        assert(groups[g].1[j] == x);
    }
}

/// A grouping is determined by the items' keys: two groupings of the same
/// items, both in first-occurrence order, are equal.
pub proof fn lemma_grouping_unique<K>(
    a: Seq<(K, Seq<usize>)>,
    b: Seq<(K, Seq<usize>)>,
    n: nat,
    key_of: spec_fn(int) -> Option<K>,
)
    requires
        is_grouping(a, n, key_of),
        in_first_occurrence_order(a),
        is_grouping(b, n, key_of),
        in_first_occurrence_order(b),
    ensures
        a == b,
{
    let fa = first_members(a);
    let fb = first_members(b);
    assert forall|x: usize| fa.contains(x) <==> fb.contains(x) by {
        lemma_first_members(a, n, key_of, x);
        lemma_first_members(b, n, key_of, x);
    }
    assert(strictly_ascending(fa)) by {
        assert forall|i: int, j: int| 0 <= i < j < fa.len() implies #[trigger] fa[i] < #[trigger] fa[j] by {
            assert(a[i].1[0] < a[j].1[0]);
        }
    }
    assert(strictly_ascending(fb)) by {
        assert forall|i: int, j: int| 0 <= i < j < fb.len() implies #[trigger] fb[i] < #[trigger] fb[j] by {
            assert(b[i].1[0] < b[j].1[0]);
        }
    }
    lemma_ascending_same_elements(fa, fb);
    assert(a.len() == fa.len() && b.len() == fb.len());
    assert forall|g: int| 0 <= g < a.len() implies a[g] == b[g] by {
        assert(fa[g] == fb[g]);
        assert(a[g].1.len() > 0 && b[g].1.len() > 0);
        let x = a[g].1[0];
        assert(key_of(a[g].1[0] as int) == Some(a[g].0));
        assert(key_of(b[g].1[0] as int) == Some(b[g].0));
        assert(a[g].0 == b[g].0);
        assert forall|y: usize| a[g].1.contains(y) <==> b[g].1.contains(y) by {
            lemma_group_members(a, n, key_of, g, y);
            lemma_group_members(b, n, key_of, g, y);
        }
        assert(strictly_ascending(a[g].1)) by {
            assert forall|i: int, j: int| 0 <= i < j < a[g].1.len() implies #[trigger] a[g].1[i] < #[trigger] a[g].1[j] by {
                assert(a[g].1[i] < a[g].1[j]);
            }
        }
        assert(strictly_ascending(b[g].1)) by {
            assert forall|i: int, j: int| 0 <= i < j < b[g].1.len() implies #[trigger] b[g].1[i] < #[trigger] b[g].1[j] by {
                assert(b[g].1[i] < b[g].1[j]);
            }
        }
        lemma_ascending_same_elements(a[g].1, b[g].1);
    }
    assert(a =~= b);
}

} // verus!
