//! Grouping the items of a sequence by a key: the groups in the order in which their keys first
//! occur, and in each group its items in their order.
use vstd::prelude::*;

verus! {

/// The keys that occur, each once, in the order of their first occurrence.
pub open spec fn keys_in_order<T>(items: Seq<T>, key: spec_fn(T) -> Seq<char>) -> Seq<Seq<char>>
    decreases items.len(),
{
    if items.len() == 0 {
        Seq::empty()
    } else {
        let before = keys_in_order(items.drop_last(), key);
        if before.contains(key(items.last())) {
            before
        } else {
            before.push(key(items.last()))
        }
    }
}

/// The items with the given key, in their order.
pub open spec fn members<T>(items: Seq<T>, key: spec_fn(T) -> Seq<char>, k: Seq<char>) -> Seq<T>
    decreases items.len(),
{
    if items.len() == 0 {
        Seq::empty()
    } else if key(items.last()) == k {
        members(items.drop_last(), key, k).push(items.last())
    } else {
        members(items.drop_last(), key, k)
    }
}

/// The items grouped by their key: one group for each key, in the order of its first occurrence.
pub open spec fn grouped<T>(items: Seq<T>, key: spec_fn(T) -> Seq<char>) -> Seq<
    (Seq<char>, Seq<T>),
> {
    Seq::new(
        keys_in_order(items, key).len(),
        |i: int| (keys_in_order(items, key)[i], members(items, key, keys_in_order(items, key)[i])),
    )
}

/// Whether some group has the given key.
pub open spec fn has_group<T>(groups: Seq<(Seq<char>, Seq<T>)>, k: Seq<char>) -> bool {
    exists|i: int| 0 <= i < groups.len() && (#[trigger] groups[i]).0 == k
}

/// The position of a group with the given key, where there is one.
pub open spec fn group_index<T>(groups: Seq<(Seq<char>, Seq<T>)>, k: Seq<char>) -> int {
    choose|i: int| 0 <= i < groups.len() && (#[trigger] groups[i]).0 == k
}

/// The groups with one more item: at the end of the group with its key, or in a new last group.
pub open spec fn with_item<T>(groups: Seq<(Seq<char>, Seq<T>)>, k: Seq<char>, item: T) -> Seq<
    (Seq<char>, Seq<T>),
> {
    if has_group(groups, k) {
        let i = group_index(groups, k);
        groups.update(i, (k, groups[i].1.push(item)))
    } else {
        groups.push((k, seq![item]))
    }
}

/// The groups with more items, taken in their order.
pub open spec fn with_items<T>(
    groups: Seq<(Seq<char>, Seq<T>)>,
    items: Seq<T>,
    key: spec_fn(T) -> Seq<char>,
) -> Seq<(Seq<char>, Seq<T>)>
    decreases items.len(),
{
    if items.len() == 0 {
        groups
    } else {
        with_item(with_items(groups, items.drop_last(), key), key(items.last()), items.last())
    }
}

/// Adding items is adding a first part of them, then the others.
pub proof fn lemma_with_items_concat<T>(
    groups: Seq<(Seq<char>, Seq<T>)>,
    first: Seq<T>,
    second: Seq<T>,
    key: spec_fn(T) -> Seq<char>,
)
    ensures
        with_items(groups, first + second, key) == with_items(
            with_items(groups, first, key),
            second,
            key,
        ),
    decreases second.len(),
{
    if second.len() == 0 {
        assert(first + second =~= first);
    } else {
        assert((first + second).drop_last() =~= first + second.drop_last());
        lemma_with_items_concat(groups, first, second.drop_last(), key);
    }
}

/// No key has two groups, a key has a group exactly where an item has that key, and every group
/// holds at least one item.
pub proof fn lemma_grouped<T>(items: Seq<T>, key: spec_fn(T) -> Seq<char>)
    ensures
        keys_in_order(items, key).no_duplicates(),
        forall|k: Seq<char>| #[trigger]
            keys_in_order(items, key).contains(k) <==> exists|i: int|
                0 <= i < items.len() && key(#[trigger] items[i]) == k,
        forall|i: int| 0 <= i < grouped(items, key).len() ==> (#[trigger] grouped(items, key)[i]).1.len() > 0,
        forall|i: int, j: int|
            0 <= i < grouped(items, key).len() && 0 <= j < grouped(items, key)[i].1.len() ==> key(
                #[trigger] grouped(items, key)[i].1[j],
            ) == grouped(items, key)[i].0,
    decreases items.len(),
{
    let keys = keys_in_order(items, key);
    if items.len() > 0 {
        let before = items.drop_last();
        let k0 = key(items.last());
        lemma_grouped(before, key);
        let keys_before = keys_in_order(before, key);
        assert forall|k: Seq<char>| #[trigger] keys.contains(k) <==> exists|i: int|
            0 <= i < items.len() && key(#[trigger] items[i]) == k by {
            if keys.contains(k) {
                if keys_before.contains(k) {
                    let i = choose|i: int| 0 <= i < before.len() && key(#[trigger] before[i]) == k;
                    assert(key(items[i]) == k);
                } else {
                    assert(k == k0);
                    assert(key(items[items.len() - 1]) == k);
                }
            }
            if exists|i: int| 0 <= i < items.len() && key(#[trigger] items[i]) == k {
                let i = choose|i: int| 0 <= i < items.len() && key(#[trigger] items[i]) == k;
                if i < before.len() {
                    assert(key(before[i]) == k);
                    assert(keys_before.contains(k));
                    let j = choose|j: int| 0 <= j < keys_before.len() && keys_before[j] == k;
                    assert(keys[j] == k);
                } else {
                    if keys_before.contains(k0) {
                        assert(keys.contains(k));
                    } else {
                        assert(keys[keys.len() - 1] == k);
                    }
                }
            }
        }
        assert forall|i: int| 0 <= i < grouped(items, key).len() implies (
        #[trigger] grouped(items, key)[i]).1.len() > 0 by {
            let k = keys[i];
            if i < keys_before.len() {
                assert(grouped(before, key)[i].1.len() > 0);
            }
        }
    }
    assert forall|i: int, j: int|
        0 <= i < grouped(items, key).len() && 0 <= j < grouped(items, key)[i].1.len() implies key(
        #[trigger] grouped(items, key)[i].1[j],
    ) == grouped(items, key)[i].0 by {
        lemma_members_key(items, key, keys[i]);
    }
}

/// The members of a group have its key.
pub proof fn lemma_members_key<T>(items: Seq<T>, key: spec_fn(T) -> Seq<char>, k: Seq<char>)
    ensures
        forall|j: int| 0 <= j < members(items, key, k).len() ==> key(#[trigger] members(items, key, k)[j]) == k,
    decreases items.len(),
{
    if items.len() > 0 {
        let before = items.drop_last();
        lemma_members_key(before, key, k);
        assert forall|j: int| 0 <= j < members(items, key, k).len() implies key(
            #[trigger] members(items, key, k)[j],
        ) == k by {
            if j < members(before, key, k).len() {
                assert(members(items, key, k)[j] == members(before, key, k)[j]);
            }
        }
    }
}

/// Grouping one more item is adding it to the groups.
pub proof fn lemma_grouped_push<T>(items: Seq<T>, item: T, key: spec_fn(T) -> Seq<char>)
    ensures
        grouped(items.push(item), key) == with_item(grouped(items, key), key(item), item),
{
    lemma_grouped(items, key);
    let groups = grouped(items, key);
    let keys = keys_in_order(items, key);
    let k0 = key(item);
    let all = items.push(item);
    assert(all.drop_last() =~= items);
    if keys.contains(k0) {
        let i0 = choose|i: int| 0 <= i < keys.len() && keys[i] == k0;
        assert(groups[i0].0 == k0);
        assert(has_group(groups, k0));
        let i = group_index(groups, k0);
        assert(groups[i].0 == k0);
        assert(keys_in_order(all, key) == keys);
        assert(grouped(all, key) =~= groups.update(i, (k0, groups[i].1.push(item))));
    } else {
        if has_group(groups, k0) {
            let i = group_index(groups, k0);
            assert(groups[i].0 == k0);
            assert(keys[i] == k0);
        }
        assert(keys_in_order(all, key) == keys.push(k0));
        assert(members(items, key, k0).len() == 0) by {
            if members(items, key, k0).len() > 0 {
                lemma_members_in(items, key, k0);
                let x = members(items, key, k0)[0];
                lemma_members_key(items, key, k0);
                let i = choose|i: int| 0 <= i < items.len() && items[i] == x;
                assert(key(items[i]) == k0);
            }
        }
        assert(members(all, key, k0) =~= seq![item]);
        assert(grouped(all, key) =~= groups.push((k0, seq![item])));
    }
}

/// The members of a group are among the items.
pub proof fn lemma_members_in<T>(items: Seq<T>, key: spec_fn(T) -> Seq<char>, k: Seq<char>)
    ensures
        forall|j: int| 0 <= j < members(items, key, k).len() ==> items.contains(#[trigger] members(items, key, k)[j]),
    decreases items.len(),
{
    if items.len() > 0 {
        let before = items.drop_last();
        lemma_members_in(before, key, k);
        assert forall|j: int| 0 <= j < members(items, key, k).len() implies items.contains(
            #[trigger] members(items, key, k)[j],
        ) by {
            if j < members(before, key, k).len() {
                let x = members(before, key, k)[j];
                let i = choose|i: int| 0 <= i < before.len() && before[i] == x;
                assert(items[i] == x);
            } else {
                assert(items[items.len() - 1] == members(items, key, k)[j]);
            }
        }
    }
}

/// The members of a group of all items are those among the first items, then those among the
/// others.
pub proof fn lemma_members_concat<T>(
    first: Seq<T>,
    second: Seq<T>,
    key: spec_fn(T) -> Seq<char>,
    k: Seq<char>,
)
    ensures
        members(first + second, key, k) == members(first, key, k) + members(second, key, k),
    decreases second.len(),
{
    if second.len() == 0 {
        assert(first + second =~= first);
        assert(members(first, key, k) + members(second, key, k) =~= members(first, key, k));
    } else {
        assert((first + second).drop_last() =~= first + second.drop_last());
        lemma_members_concat(first, second.drop_last(), key, k);
        assert(members(first + second, key, k) =~= members(first, key, k) + members(
            second,
            key,
            k,
        ));
    }
}

/// An item is a member of the group of its key.
pub proof fn lemma_item_is_member<T>(items: Seq<T>, key: spec_fn(T) -> Seq<char>, item: T)
    requires
        items.contains(item),
    ensures
        members(items, key, key(item)).contains(item),
    decreases items.len(),
{
    let found = members(items, key, key(item));
    let before = members(items.drop_last(), key, key(item));
    let i = choose|i: int| 0 <= i < items.len() && items[i] == item;
    if i == items.len() - 1 {
        assert(found[found.len() - 1] == item);
    } else {
        assert(items.drop_last()[i] == item);
        lemma_item_is_member(items.drop_last(), key, item);
        let j = choose|j: int| 0 <= j < before.len() && before[j] == item;
        assert(found[j] == item);
    }
}

/// The first member of a group is the first item with its key.
pub proof fn lemma_first_member<T>(
    items: Seq<T>,
    key: spec_fn(T) -> Seq<char>,
    k: Seq<char>,
    i: int,
)
    requires
        0 <= i < items.len(),
        key(items[i]) == k,
        forall|j: int| 0 <= j < i ==> key(#[trigger] items[j]) != k,
    ensures
        members(items, key, k).len() > 0,
        members(items, key, k)[0] == items[i],
    decreases items.len(),
{
    let before = items.drop_last();
    if i < items.len() - 1 {
        assert(before[i] == items[i]);
        assert forall|j: int| 0 <= j < i implies key(#[trigger] before[j]) != k by {
            assert(before[j] == items[j]);
        }
        lemma_first_member(before, key, k, i);
    } else {
        assert forall|j: int| 0 <= j < before.len() implies key(#[trigger] before[j]) != k by {
            assert(before[j] == items[j]);
        }
        lemma_no_members(before, key, k);
    }
}

proof fn lemma_no_members<T>(items: Seq<T>, key: spec_fn(T) -> Seq<char>, k: Seq<char>)
    requires
        forall|j: int| 0 <= j < items.len() ==> key(#[trigger] items[j]) != k,
    ensures
        members(items, key, k).len() == 0,
    decreases items.len(),
{
    if items.len() > 0 {
        let before = items.drop_last();
        assert forall|j: int| 0 <= j < before.len() implies key(#[trigger] before[j]) != k by {
            assert(before[j] == items[j]);
        }
        assert(key(items[items.len() - 1]) != k);
        lemma_no_members(before, key, k);
    }
}

/// Keys come in the order in which they first occur: of two keys, the one whose first item comes
/// first has the earlier group.
pub proof fn lemma_key_order<T>(items: Seq<T>, key: spec_fn(T) -> Seq<char>, i: int, j: int) -> (at: (
    int,
    int,
))
    requires
        0 <= i < j < items.len(),
        forall|l: int| 0 <= l < i ==> key(#[trigger] items[l]) != key(items[i]),
        forall|l: int| 0 <= l < j ==> key(#[trigger] items[l]) != key(items[j]),
    ensures
        0 <= at.0 < at.1 < grouped(items, key).len(),
        grouped(items, key)[at.0].0 == key(items[i]),
        grouped(items, key)[at.1].0 == key(items[j]),
    decreases items.len(),
{
    let before = items.drop_last();
    let keys_before = keys_in_order(before, key);
    let keys = keys_in_order(items, key);
    if j < items.len() - 1 {
        assert forall|l: int| 0 <= l < i implies key(#[trigger] before[l]) != key(before[i]) by {
            assert(before[l] == items[l]);
        }
        assert forall|l: int| 0 <= l < j implies key(#[trigger] before[l]) != key(before[j]) by {
            assert(before[l] == items[l]);
        }
        let at = lemma_key_order(before, key, i, j);
        assert(keys[at.0] == keys_before[at.0]);
        assert(keys[at.1] == keys_before[at.1]);
        at
    } else {
        lemma_grouped(before, key);
        assert(before[i] == items[i]);
        assert(key(before[i]) == key(items[i]));
        assert(keys_before.contains(key(items[i])));
        assert(!keys_before.contains(key(items[j]))) by {
            if keys_before.contains(key(items[j])) {
                let l = choose|l: int|
                    0 <= l < before.len() && key(#[trigger] before[l]) == key(items[j]);
                assert(items[l] == before[l]);
            }
        }
        let g = choose|g: int| 0 <= g < keys_before.len() && keys_before[g] == key(items[i]);
        assert(keys[g] == keys_before[g]);
        (g, keys_before.len() as int)
    }
}

/// The place of the group of a key that has members.
pub proof fn lemma_group_of_key<T>(
    items: Seq<T>,
    key: spec_fn(T) -> Seq<char>,
    k: Seq<char>,
) -> (g: int)
    requires
        members(items, key, k).len() > 0,
    ensures
        0 <= g < grouped(items, key).len(),
        grouped(items, key)[g] == (k, members(items, key, k)),
{
    lemma_grouped(items, key);
    lemma_members_in(items, key, k);
    lemma_members_key(items, key, k);
    let item = members(items, key, k)[0];
    let i = choose|i: int| 0 <= i < items.len() && items[i] == item;
    assert(key(items[i]) == k);
    let keys = keys_in_order(items, key);
    assert(keys.contains(k));
    choose|g: int| 0 <= g < keys.len() && keys[g] == k
}

/// Adding items to no groups is grouping them.
pub proof fn lemma_with_items_grouped<T>(items: Seq<T>, key: spec_fn(T) -> Seq<char>)
    ensures
        with_items(Seq::empty(), items, key) == grouped(items, key),
    decreases items.len(),
{
    if items.len() == 0 {
        assert(grouped(items, key) =~= Seq::empty());
    } else {
        lemma_with_items_grouped(items.drop_last(), key);
        lemma_grouped_push(items.drop_last(), items.last(), key);
        assert(items.drop_last().push(items.last()) =~= items);
    }
}

/// All members of all groups, group by group.
pub open spec fn ungrouped<T>(groups: Seq<(Seq<char>, Seq<T>)>) -> Seq<T>
    decreases groups.len(),
{
    if groups.len() == 0 {
        Seq::empty()
    } else {
        ungrouped(groups.drop_last()) + groups.last().1
    }
}

/// Grouping neither loses nor repeats an item: the groups together hold exactly the items.
pub proof fn lemma_grouping_partitions<T>(items: Seq<T>, key: spec_fn(T) -> Seq<char>)
    ensures
        ungrouped(grouped(items, key)).to_multiset() == items.to_multiset(),
    decreases items.len(),
{
    if items.len() == 0 {
        assert(grouped(items, key) =~= Seq::empty());
        assert(ungrouped(grouped(items, key)) =~= items);
    } else {
        let before = items.drop_last();
        let item = items.last();
        assert(before.push(item) =~= items);
        lemma_grouping_partitions(before, key);
        lemma_grouped_push(before, item, key);
        lemma_with_item_multiset(grouped(before, key), key(item), item);
        before.to_multiset_ensures();
    }
}

proof fn lemma_with_item_multiset<T>(groups: Seq<(Seq<char>, Seq<T>)>, k: Seq<char>, item: T)
    ensures
        ungrouped(with_item(groups, k, item)).to_multiset() == ungrouped(groups).to_multiset().insert(item),
{
    if has_group(groups, k) {
        let i = group_index(groups, k);
        assert(groups[i].0 == k);
        lemma_update_multiset(groups, i, k, item);
    } else {
        let more = groups.push((k, seq![item]));
        assert(more.drop_last() =~= groups);
        assert(ungrouped(more) =~= ungrouped(groups).push(item));
        ungrouped(groups).to_multiset_ensures();
    }
}

proof fn lemma_update_multiset<T>(
    groups: Seq<(Seq<char>, Seq<T>)>,
    i: int,
    k: Seq<char>,
    item: T,
)
    requires
        0 <= i < groups.len(),
    ensures
        ungrouped(groups.update(i, (k, groups[i].1.push(item)))).to_multiset() == ungrouped(
            groups,
        ).to_multiset().insert(item),
    decreases groups.len(),
{
    broadcast use vstd::seq_lib::group_to_multiset_ensures;

    let more = groups.update(i, (k, groups[i].1.push(item)));
    let rest = groups.drop_last();
    if i == groups.len() - 1 {
        assert(more.drop_last() =~= rest);
        assert(ungrouped(more) =~= ungrouped(groups).push(item));
        ungrouped(groups).to_multiset_ensures();
    } else {
        assert(more.drop_last() =~= rest.update(i, (k, rest[i].1.push(item))));
        lemma_update_multiset(rest, i, k, item);
        vstd::seq_lib::lemma_multiset_commutative(ungrouped(more.drop_last()), more.last().1);
        vstd::seq_lib::lemma_multiset_commutative(ungrouped(rest), groups.last().1);
        assert(ungrouped(more).to_multiset() =~= ungrouped(groups).to_multiset().insert(item));
    }
}

} // verus!
