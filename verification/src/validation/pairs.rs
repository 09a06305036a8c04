//! The pairs of fields that have the same response name.
use vstd::prelude::*;

use crate::grouping;
use crate::validation::fields;
use crate::validation::fields::{FieldAgainstType, FieldGroup, SelectedField};

verus! {

/// The first of the fields with each of the others, in their order.
pub open spec fn first_pairs(members: Seq<SelectedField>) -> Seq<(SelectedField, SelectedField)> {
    if members.len() == 0 {
        Seq::empty()
    } else {
        Seq::new((members.len() - 1) as nat, |j: int| (members[0], members[j + 1]))
    }
}

/// Each of the fields with each of those after it, in their order.
pub open spec fn group_pairs(members: Seq<SelectedField>) -> Seq<(SelectedField, SelectedField)>
    decreases members.len(),
{
    if members.len() == 0 {
        Seq::empty()
    } else {
        first_pairs(members) + group_pairs(members.skip(1))
    }
}

/// In each group each field with each of those after it, group by group.
pub open spec fn pairs(groups: Seq<(Seq<char>, Seq<SelectedField>)>) -> Seq<
    (SelectedField, SelectedField),
>
    decreases groups.len(),
{
    if groups.len() == 0 {
        Seq::empty()
    } else {
        group_pairs(groups[0].1) + pairs(groups.skip(1))
    }
}

proof fn lemma_group_pair_is(members: Seq<SelectedField>, i: int) -> (at: (int, int))
    requires
        0 <= i < group_pairs(members).len(),
    ensures
        0 <= at.0 < at.1 < members.len(),
        group_pairs(members)[i] == (members[at.0], members[at.1]),
    decreases members.len(),
{
    let first = first_pairs(members);
    if i < first.len() {
        assert(group_pairs(members)[i] == first[i]);
        (0, i + 1)
    } else {
        assert(group_pairs(members)[i] == group_pairs(members.skip(1))[i - first.len()]);
        let at = lemma_group_pair_is(members.skip(1), i - first.len());
        (at.0 + 1, at.1 + 1)
    }
}

proof fn lemma_is_group_pair(members: Seq<SelectedField>, p: int, q: int) -> (i: int)
    requires
        0 <= p < q < members.len(),
    ensures
        0 <= i < group_pairs(members).len(),
        group_pairs(members)[i] == (members[p], members[q]),
    decreases members.len(),
{
    let first = first_pairs(members);
    if p == 0 {
        assert(group_pairs(members)[q - 1] == first[q - 1]);
        q - 1
    } else {
        let i = lemma_is_group_pair(members.skip(1), p - 1, q - 1);
        assert(group_pairs(members)[first.len() + i] == group_pairs(members.skip(1))[i]);
        first.len() + i
    }
}

/// Every pair is made of two members of one group: the group, and the places of the two in it.
pub proof fn lemma_pair_is(groups: Seq<(Seq<char>, Seq<SelectedField>)>, i: int) -> (at: (
    int,
    int,
    int,
))
    requires
        0 <= i < pairs(groups).len(),
    ensures
        0 <= at.0 < groups.len(),
        0 <= at.1 < at.2 < groups[at.0].1.len(),
        pairs(groups)[i] == (groups[at.0].1[at.1], groups[at.0].1[at.2]),
    decreases groups.len(),
{
    let first = group_pairs(groups[0].1);
    if i < first.len() {
        assert(pairs(groups)[i] == first[i]);
        let at = lemma_group_pair_is(groups[0].1, i);
        (0, at.0, at.1)
    } else {
        assert(pairs(groups)[i] == pairs(groups.skip(1))[i - first.len()]);
        let at = lemma_pair_is(groups.skip(1), i - first.len());
        (at.0 + 1, at.1, at.2)
    }
}

/// Any two members of one group are a pair: the place of the pair.
pub proof fn lemma_is_pair(
    groups: Seq<(Seq<char>, Seq<SelectedField>)>,
    g: int,
    p: int,
    q: int,
) -> (i: int)
    requires
        0 <= g < groups.len(),
        0 <= p < q < groups[g].1.len(),
    ensures
        0 <= i < pairs(groups).len(),
        pairs(groups)[i] == (groups[g].1[p], groups[g].1[q]),
    decreases groups.len(),
{
    let first = group_pairs(groups[0].1);
    if g == 0 {
        let i = lemma_is_group_pair(groups[0].1, p, q);
        assert(pairs(groups)[i] == first[i]);
        i
    } else {
        let i = lemma_is_pair(groups.skip(1), g - 1, p, q);
        assert(pairs(groups)[first.len() + i] == pairs(groups.skip(1))[i]);
        first.len() + i
    }
}

/// The members of a group of fields are among the fields, and have the response name of the group.
pub proof fn lemma_member_is_field(selected: Seq<SelectedField>, g: int, p: int)
    requires
        0 <= g < fields::fields_by_name(selected).len(),
        0 <= p < fields::fields_by_name(selected)[g].1.len(),
    ensures
        selected.contains(fields::fields_by_name(selected)[g].1[p]),
        fields::fields_by_name(selected)[g].1[p].field.response_key() == fields::fields_by_name(
            selected,
        )[g].0,
{
    let key = fields::by_response_name();
    let groups = fields::fields_by_name(selected);
    grouping::lemma_grouped(selected, key);
    grouping::lemma_members_in(selected, key, groups[g].0);
    assert(key(groups[g].1[p]) == groups[g].0);
}

/// The pairs, each field with the name of the type it selects from.
pub open spec fn pairs_view(found: Seq<(FieldAgainstType<'_>, FieldAgainstType<'_>)>) -> Seq<
    (SelectedField, SelectedField),
> {
    found.map_values(|pair: (FieldAgainstType<'_>, FieldAgainstType<'_>)| (pair.0@, pair.1@))
}

/// Adds each of the fields with each of those after it.
pub(crate) fn push_group_pairs<'a>(
    members: &Vec<FieldAgainstType<'a>>,
    found: &mut Vec<(FieldAgainstType<'a>, FieldAgainstType<'a>)>,
)
    ensures
        pairs_view(final(found)@) == pairs_view(old(found)@) + group_pairs(
            fields::selected(members@),
        ),
{
    let ghost seen = fields::selected(members@);
    let ghost all = pairs_view(found@) + group_pairs(seen);
    assert(seen.skip(0) =~= seen);
    let mut i: usize = 0;
    while i < members.len()
        invariant
            i <= members.len(),
            seen == fields::selected(members@),
            all == pairs_view(found@) + group_pairs(seen.skip(i as int)),
        decreases members.len() - i,
    {
        let ghost rest = group_pairs(seen.skip(i + 1));
        let ghost first = first_pairs(seen.skip(i as int));
        proof {
            assert(seen.skip(i as int).skip(1) =~= seen.skip(i + 1));
            assert(first.skip(0) =~= first);
        }
        let mut j: usize = i + 1;
        while j < members.len()
            invariant
                i < j <= members.len(),
                seen == fields::selected(members@),
                first == first_pairs(seen.skip(i as int)),
                all == pairs_view(found@) + (first.skip(j - i - 1) + rest),
            decreases members.len() - j,
        {
            let ghost before = found@;
            let pair = (members[i], members[j]);
            found.push(pair);
            proof {
                let left = first.skip(j - i - 1);
                assert(left[0] == (members@[i as int]@, members@[j as int]@));
                assert(first.skip(j - i) =~= left.skip(1));
                assert(pairs_view(found@) =~= pairs_view(before).push(left[0]));
                assert(pairs_view(before) + (left + rest) =~= pairs_view(before).push(left[0]) + (
                left.skip(1) + rest));
            }
            j += 1;
        }
        assert(first.skip(j - i - 1) + rest =~= rest);
        i += 1;
    }
    assert(all =~= pairs_view(found@));
}

/// In each group each field with each of those after it, group by group.
pub fn field_pairs<'a>(groups: &Vec<FieldGroup<'a>>) -> (result: Vec<
    (FieldAgainstType<'a>, FieldAgainstType<'a>),
>)
    ensures
        pairs_view(result@) == pairs(fields::groups_view(groups@)),
{
    let mut found: Vec<(FieldAgainstType<'a>, FieldAgainstType<'a>)> = Vec::new();
    let ghost all = fields::groups_view(groups@);
    assert(all.skip(0) =~= all);
    assert(pairs_view(found@) + pairs(all) =~= pairs(all));
    let mut g: usize = 0;
    while g < groups.len()
        invariant
            g <= groups.len(),
            all == fields::groups_view(groups@),
            pairs(all) == pairs_view(found@) + pairs(all.skip(g as int)),
        decreases groups.len() - g,
    {
        let ghost before = pairs_view(found@);
        push_group_pairs(&groups[g].fields, &mut found);
        proof {
            let one = group_pairs(all[g as int].1);
            let rest = pairs(all.skip(g + 1));
            assert(all.skip(g as int).skip(1) =~= all.skip(g + 1));
            assert(before + (one + rest) =~= (before + one) + rest);
        }
        g += 1;
    }
    assert(pairs_view(found@) + pairs(all.skip(g as int)) =~= pairs_view(found@));
    found
}

} // verus!
