//! What a grouping holds.
//!
//! Grouping neither loses a value nor makes one up: the values held by the
//! groups are as many as the pairs. Pairs with distinct keys are grouped
//! into as many scalars, one for each pair, in ascending order of the keys.

use vstd::prelude::*;
use crate::urlencoded::de::{
    ascending, has_key, is_grouping, lemma_ascending_distinct, lemma_group_of_values, values_for,
};
use crate::urlencoded::val_or_vec::Group;

verus! {

/// The number of values that the groups hold.
pub open spec fn total(groups: Seq<(Seq<char>, Group)>) -> nat
    decreases groups.len(),
{
    if groups.len() == 0 {
        0
    } else {
        total(groups.drop_last()) + groups.last().1.values().len()
    }
}

/// No two pairs share a key.
pub open spec fn distinct_keys(pairs: Seq<(Seq<char>, Seq<char>)>) -> bool {
    forall|i: int, j: int|
        0 <= i < j < pairs.len() ==> (#[trigger] pairs[i]).0 != (#[trigger] pairs[j]).0
}

/// Replacing a group changes the number of values by the difference
/// between the two groups.
proof fn lemma_total_update(groups: Seq<(Seq<char>, Group)>, m: int, entry: (Seq<char>, Group))
    requires
        0 <= m < groups.len(),
    ensures
        total(groups.update(m, entry)) + groups[m].1.values().len() == total(groups)
            + entry.1.values().len(),
    decreases groups.len(),
{
    let after = groups.update(m, entry);
    if m == groups.len() - 1 {
        assert(after.drop_last() =~= groups.drop_last());
    } else {
        assert(after.drop_last() =~= groups.drop_last().update(m, entry));
        lemma_total_update(groups.drop_last(), m, entry);
    }
}

/// Taking a group out takes its values out.
proof fn lemma_total_remove(groups: Seq<(Seq<char>, Group)>, m: int)
    requires
        0 <= m < groups.len(),
    ensures
        total(groups.remove(m)) + groups[m].1.values().len() == total(groups),
    decreases groups.len(),
{
    let after = groups.remove(m);
    if m == groups.len() - 1 {
        assert(after =~= groups.drop_last());
    } else {
        assert(after.drop_last() =~= groups.drop_last().remove(m));
        assert(after.last() == groups.last());
        lemma_total_remove(groups.drop_last(), m);
    }
}

/// The grouping of pairs without the last one: the group of the last
/// pair's key loses its last value, and leaves if it held no other.
spec fn shrunk(groups: Seq<(Seq<char>, Group)>, pairs: Seq<(Seq<char>, Seq<char>)>, m: int) -> Seq<
    (Seq<char>, Group),
> {
    let left = values_for(pairs.drop_last(), pairs.last().0);
    if left.len() == 0 {
        groups.remove(m)
    } else {
        groups.update(m, (pairs.last().0, Group::of(left)))
    }
}

/// Taking the last pair away from grouped pairs leaves a grouping.
proof fn lemma_grouping_shrink(
    groups: Seq<(Seq<char>, Group)>,
    pairs: Seq<(Seq<char>, Seq<char>)>,
    m: int,
)
    requires
        is_grouping(groups, pairs),
        pairs.len() > 0,
        0 <= m < groups.len(),
        groups[m].0 == pairs.last().0,
    ensures
        is_grouping(shrunk(groups, pairs, m), pairs.drop_last()),
{
    let front = pairs.drop_last();
    let key = pairs.last().0;
    let left = values_for(front, key);
    let prev = shrunk(groups, pairs, m);
    assert forall|i: int| 0 <= i < groups.len() && i != m implies (#[trigger] groups[i]).0 != key by {
        if groups[i].0 == key {
            lemma_ascending_distinct(groups, i, m);
        }
    }
    if left.len() == 0 {
        assert forall|i: int| 0 <= i < prev.len() implies (#[trigger] prev[i]) == groups[if i < m {
            i
        } else {
            i + 1
        }] by {}
        assert forall|i: int, j: int| 0 <= i < j < prev.len() implies crate::text::key_lt(
            #[trigger] prev[i].0,
            #[trigger] prev[j].0,
        ) by {
            let a = if i < m {
                i
            } else {
                i + 1
            };
            let b = if j < m {
                j
            } else {
                j + 1
            };
            assert(prev[i] == groups[a]);
            assert(prev[j] == groups[b]);
            assert(crate::text::key_lt(groups[a].0, groups[b].0));
        }
        assert forall|i: int| 0 <= i < prev.len() implies {
            &&& values_for(front, (#[trigger] prev[i]).0).len() > 0
            &&& prev[i].1 == Group::of(values_for(front, prev[i].0))
        } by {
            let a = if i < m {
                i
            } else {
                i + 1
            };
            assert(prev[i] == groups[a]);
            assert(groups[a].0 != key);
            assert(values_for(pairs, groups[a].0) == values_for(front, groups[a].0));
        }
        assert forall|k: Seq<char>| (#[trigger] values_for(front, k)).len() > 0 implies has_key(
            prev,
            k,
        ) by {
            assert(k != key);
            assert(values_for(pairs, k) == values_for(front, k));
            assert(has_key(groups, k));
            let j = choose|j: int| 0 <= j < groups.len() && (#[trigger] groups[j]).0 == k;
            assert(j != m);
            if j < m {
                assert(prev[j].0 == k);
            } else {
                assert(prev[j - 1] == groups[j]);
                assert(prev[j - 1].0 == k);
            }
        }
    } else {
        assert forall|i: int, j: int| 0 <= i < j < prev.len() implies crate::text::key_lt(
            #[trigger] prev[i].0,
            #[trigger] prev[j].0,
        ) by {
            assert(prev[i].0 == groups[i].0);
            assert(prev[j].0 == groups[j].0);
        }
        assert forall|i: int| 0 <= i < prev.len() implies {
            &&& values_for(front, (#[trigger] prev[i]).0).len() > 0
            &&& prev[i].1 == Group::of(values_for(front, prev[i].0))
        } by {
            if i != m {
                assert(prev[i] == groups[i]);
                assert(groups[i].0 != key);
                assert(values_for(pairs, groups[i].0) == values_for(front, groups[i].0));
            }
        }
        assert forall|k: Seq<char>| (#[trigger] values_for(front, k)).len() > 0 implies has_key(
            prev,
            k,
        ) by {
            if k == key {
                assert(prev[m].0 == k);
            } else {
                assert(values_for(pairs, k) == values_for(front, k));
                assert(has_key(groups, k));
                let j = choose|j: int| 0 <= j < groups.len() && (#[trigger] groups[j]).0 == k;
                assert(prev[j].0 == k);
            }
        }
    }
}

/// Nothing is lost and nothing is made up: the groups of a grouping hold
/// as many values as there are pairs.
pub proof fn lemma_grouping_total(groups: Seq<(Seq<char>, Group)>, pairs: Seq<(Seq<char>, Seq<char>)>)
    requires
        is_grouping(groups, pairs),
    ensures
        total(groups) == pairs.len(),
    decreases pairs.len(),
{
    if pairs.len() == 0 {
        if groups.len() > 0 {
            assert(values_for(pairs, groups[0].0).len() > 0);
        }
    } else {
        let front = pairs.drop_last();
        let key = pairs.last().0;
        let left = values_for(front, key);
        assert(values_for(pairs, key) == left.push(pairs.last().1));
        assert(has_key(groups, key));
        let m = choose|m: int| 0 <= m < groups.len() && (#[trigger] groups[m]).0 == key;
        lemma_grouping_shrink(groups, pairs, m);
        lemma_grouping_total(shrunk(groups, pairs, m), front);
        lemma_group_of_values(values_for(pairs, key));
        assert(groups[m].1.values().len() == left.len() + 1);
        if left.len() == 0 {
            lemma_total_remove(groups, m);
        } else {
            lemma_group_of_values(left);
            lemma_total_update(groups, m, (key, Group::of(left)));
        }
    }
}

/// Pairs with distinct keys give at most one value under a key, and that
/// value stands beside the key in one of the pairs.
proof fn lemma_values_single(pairs: Seq<(Seq<char>, Seq<char>)>, key: Seq<char>)
    requires
        distinct_keys(pairs),
    ensures
        values_for(pairs, key).len() <= 1,
        values_for(pairs, key).len() == 1 ==> pairs.contains((key, values_for(pairs, key)[0])),
        values_for(pairs, key).len() == 0 ==> forall|i: int|
            0 <= i < pairs.len() ==> (#[trigger] pairs[i]).0 != key,
    decreases pairs.len(),
{
    if pairs.len() > 0 {
        let front = pairs.drop_last();
        assert forall|i: int, j: int| 0 <= i < j < front.len() implies (#[trigger] front[i]).0 != (
        #[trigger] front[j]).0 by {
            assert(front[i] == pairs[i]);
            assert(front[j] == pairs[j]);
        }
        lemma_values_single(front, key);
        assert(pairs.last() == pairs[pairs.len() - 1]);
        assert forall|i: int| 0 <= i < front.len() implies (#[trigger] front[i]).0
            != pairs.last().0 by {
            assert(front[i] == pairs[i]);
        }
        if pairs.last().0 == key {
            if values_for(front, key).len() == 1 {
                let i = choose|i: int|
                    0 <= i < front.len() && front[i] == (key, values_for(front, key)[0]);
                assert(front[i].0 == key);
            }
            assert(values_for(front, key).len() == 0);
            assert(pairs[pairs.len() - 1] == (key, values_for(pairs, key)[0]));
        } else {
            if values_for(front, key).len() == 1 {
                let i = choose|i: int|
                    0 <= i < front.len() && front[i] == (key, values_for(front, key)[0]);
                assert(pairs[i] == (key, values_for(pairs, key)[0]));
            }
            assert forall|i: int| 0 <= i < pairs.len() && values_for(pairs, key).len()
                == 0 implies (#[trigger] pairs[i]).0 != key by {
                if i < front.len() {
                    assert(front[i] == pairs[i]);
                }
            }
        }
    }
}

/// Groups that are all scalars hold one value each.
proof fn lemma_total_of_scalars(groups: Seq<(Seq<char>, Group)>)
    requires
        forall|i: int| 0 <= i < groups.len() ==> (#[trigger] groups[i]).1 is Val,
    ensures
        total(groups) == groups.len(),
    decreases groups.len(),
{
    if groups.len() > 0 {
        let front = groups.drop_last();
        assert forall|i: int| 0 <= i < front.len() implies (#[trigger] front[i]).1 is Val by {
            assert(front[i] == groups[i]);
        }
        lemma_total_of_scalars(front);
        assert(groups.last() == groups[groups.len() - 1]);
    }
}

/// Pairs with distinct keys are grouped into themselves, sorted: there
/// are as many groups as pairs, each group is a scalar, and each stands
/// for one of the pairs. The keys ascend, as in every grouping.
pub proof fn lemma_grouping_of_distinct(
    groups: Seq<(Seq<char>, Group)>,
    pairs: Seq<(Seq<char>, Seq<char>)>,
)
    requires
        is_grouping(groups, pairs),
        distinct_keys(pairs),
    ensures
        groups.len() == pairs.len(),
        ascending(groups),
        forall|i: int|
            0 <= i < groups.len() ==> (#[trigger] groups[i]).1 is Val && pairs.contains(
                (groups[i].0, groups[i].1->Val_0),
            ),
{
    assert forall|i: int| 0 <= i < groups.len() implies (#[trigger] groups[i]).1 is Val
        && pairs.contains((groups[i].0, groups[i].1->Val_0)) by {
        lemma_values_single(pairs, groups[i].0);
    }
    lemma_total_of_scalars(groups);
    lemma_grouping_total(groups, pairs);
}

} // verus!
