//! The fields that a selection set selects, with fragments expanded, and their response names.
use vstd::hash_map::StringHashMap;
use vstd::prelude::*;

use crate::ast::{
    Field, FragmentDefinition, FragmentSpread, InlineFragment, Name, NamedType, Selection,
};
use crate::database::NamedFragments;
use crate::grouping;
use crate::names;
use crate::names::NameSet;

verus! {

/// A field and the type it selects from.
#[derive(Debug, Clone, Copy)]
pub struct FieldAgainstType<'a> {
    pub against_type: &'a NamedType,
    pub field: &'a Field,
}

/// What a [`FieldAgainstType`] is: a field and the name of the type it selects from.
pub struct SelectedField {
    pub against: Seq<char>,
    pub field: Field,
}

impl<'a> View for FieldAgainstType<'a> {
    type V = SelectedField;

    open spec fn view(&self) -> SelectedField {
        SelectedField { against: self.against_type@, field: *self.field }
    }
}

/// The fields, each with the name of the type it selects from.
pub open spec fn selected(fields: Seq<FieldAgainstType<'_>>) -> Seq<SelectedField> {
    fields.map_values(|field: FieldAgainstType<'_>| field@)
}

/// Selections that all select from the same type.
pub open spec fn against(ty: Seq<char>, selections: Seq<Selection>) -> Seq<(Seq<char>, Selection)> {
    selections.map_values(|selection: Selection| (ty, selection))
}

/// The number of selections in a selection, inline fragments opened.
pub open spec fn selection_size(selection: Selection) -> nat
    decreases selection,
{
    match selection {
        Selection::InlineFragment(inline) => 1 + selections_size(inline.selection_set@),
        _ => 1,
    }
}

/// The number of selections in selections, inline fragments opened.
pub open spec fn selections_size(selections: Seq<Selection>) -> nat
    decreases selections,
{
    if selections.len() == 0 {
        0
    } else {
        selection_size(selections[0]) + selections_size(selections.skip(1))
    }
}

/// The number of selections in selections that may select from different types.
pub open spec fn work_size(work: Seq<(Seq<char>, Selection)>) -> nat
    decreases work.len(),
{
    if work.len() == 0 {
        0
    } else {
        selection_size(work[0].1) + work_size(work.skip(1))
    }
}

/// The size of selections on one type before others is the sum of the sizes.
pub proof fn lemma_work_size(ty: Seq<char>, selections: Seq<Selection>, rest: Seq<(Seq<char>, Selection)>)
    ensures
        work_size(against(ty, selections) + rest) == selections_size(selections) + work_size(rest),
    decreases selections.len(),
{
    let work = against(ty, selections) + rest;
    if selections.len() == 0 {
        assert(work =~= rest);
    } else {
        assert(work.skip(1) =~= against(ty, selections.skip(1)) + rest);
        lemma_work_size(ty, selections.skip(1), rest);
    }
}

/// What expanding selections gives: the fields, and the names of all fragments met until then.
#[verifier::ext_equal]
pub struct Expansion {
    pub fields: Seq<SelectedField>,
    pub seen: Set<Seq<char>>,
}

/// The fields that `work` selects, where the fragments named in `seen` were met before.
///
/// Fields come in the order in which they are written, with fragments expanded where they stand.
/// A named fragment is expanded only where it is met first; the spread of a fragment that is not
/// there selects nothing. A fragment's type condition, where it has one, is the type that the
/// fields in it select from.
pub open spec fn expand(
    fragments: Map<Seq<char>, FragmentDefinition>,
    seen: Set<Seq<char>>,
    work: Seq<(Seq<char>, Selection)>,
) -> Expansion
    decreases names::unseen(fragments, seen), work_size(work),
    when fragments.dom().finite()
{
    if work.len() == 0 {
        Expansion { fields: Seq::empty(), seen }
    } else {
        let (ty, selection) = work[0];
        let rest = work.skip(1);
        match selection {
            Selection::Field(field) => {
                let then = expand(fragments, seen, rest);
                Expansion {
                    fields: seq![SelectedField { against: ty, field }] + then.fields,
                    seen: then.seen,
                }
            },
            Selection::InlineFragment(inline) => {
                let inner = match inline.type_condition {
                    Some(condition) => condition@,
                    None => ty,
                };
                proof {
                    lemma_work_size(inner, inline.selection_set@, rest);
                }
                expand(fragments, seen, against(inner, inline.selection_set@) + rest)
            },
            Selection::FragmentSpread(spread) => {
                let name = spread.fragment_name@;
                proof {
                    names::lemma_unseen_insert(fragments, seen, name);
                }
                if seen.contains(name) {
                    expand(fragments, seen, rest)
                } else if !fragments.contains_key(name) {
                    expand(fragments, seen.insert(name), rest)
                } else {
                    expand(
                        fragments,
                        seen.insert(name),
                        against(
                            fragments[name].type_condition@,
                            fragments[name].selection_set@,
                        ) + rest,
                    )
                }
            },
        }
    }
}

/// The fields of a selection set on a type.
pub open spec fn fields_of(
    fragments: Map<Seq<char>, FragmentDefinition>,
    ty: Seq<char>,
    selections: Seq<Selection>,
) -> Seq<SelectedField> {
    expand(fragments, Set::empty(), against(ty, selections)).fields
}

/// Expanding selections is expanding a first part of them, then the others with the fragments met
/// by then.
pub proof fn lemma_expand_concat(
    fragments: Map<Seq<char>, FragmentDefinition>,
    seen: Set<Seq<char>>,
    first: Seq<(Seq<char>, Selection)>,
    second: Seq<(Seq<char>, Selection)>,
)
    requires
        fragments.dom().finite(),
    ensures
        ({
            let before = expand(fragments, seen, first);
            let after = expand(fragments, before.seen, second);
            expand(fragments, seen, first + second) == (Expansion {
                fields: before.fields + after.fields,
                seen: after.seen,
            })
        }),
        seen.subset_of(expand(fragments, seen, first).seen),
    decreases names::unseen(fragments, seen), work_size(first),
{
    let work = first + second;
    if first.len() == 0 {
        assert(work =~= second);
        assert(Seq::<SelectedField>::empty() + expand(fragments, seen, second).fields =~= expand(
            fragments,
            seen,
            second,
        ).fields);
    } else {
        let (ty, selection) = first[0];
        let rest = first.skip(1);
        assert(work[0] == first[0]);
        assert(work.skip(1) =~= rest + second);
        match selection {
            Selection::Field(field) => {
                lemma_expand_concat(fragments, seen, rest, second);
                let head = seq![SelectedField { against: ty, field }];
                let before = expand(fragments, seen, rest);
                let after = expand(fragments, before.seen, second);
                assert(head + (before.fields + after.fields) =~= (head + before.fields)
                    + after.fields);
            },
            Selection::InlineFragment(inline) => {
                let inner = match inline.type_condition {
                    Some(condition) => condition@,
                    None => ty,
                };
                let opened = against(inner, inline.selection_set@);
                lemma_work_size(inner, inline.selection_set@, rest);
                lemma_expand_concat(fragments, seen, opened + rest, second);
                assert(opened + (rest + second) =~= (opened + rest) + second);
            },
            Selection::FragmentSpread(spread) => {
                let name = spread.fragment_name@;
                names::lemma_unseen_insert(fragments, seen, name);
                if seen.contains(name) {
                    lemma_expand_concat(fragments, seen, rest, second);
                } else if !fragments.contains_key(name) {
                    lemma_expand_concat(fragments, seen.insert(name), rest, second);
                } else {
                    let opened = against(
                        fragments[name].type_condition@,
                        fragments[name].selection_set@,
                    );
                    lemma_expand_concat(fragments, seen.insert(name), opened + rest, second);
                    assert(opened + (rest + second) =~= (opened + rest) + second);
                }
            },
        }
    }
}

proof fn lemma_selection_size(selections: Seq<Selection>, i: int)
    requires
        0 <= i < selections.len(),
    ensures
        selection_size(selections[i]) <= selections_size(selections),
    decreases i,
{
    if i > 0 {
        assert(selections.skip(1)[i - 1] == selections[i]);
        lemma_selection_size(selections.skip(1), i - 1);
    }
}

/// Expanding one selection: what a lone selection gives.
proof fn lemma_expand_one(
    fragments: Map<Seq<char>, FragmentDefinition>,
    seen: Set<Seq<char>>,
    ty: Seq<char>,
    selection: Selection,
)
    requires
        fragments.dom().finite(),
    ensures
        expand(fragments, seen, seq![(ty, selection)]) == match selection {
            Selection::Field(field) => Expansion {
                fields: seq![SelectedField { against: ty, field }],
                seen,
            },
            Selection::InlineFragment(inline) => expand(
                fragments,
                seen,
                against(
                    match inline.type_condition {
                        Some(condition) => condition@,
                        None => ty,
                    },
                    inline.selection_set@,
                ),
            ),
            Selection::FragmentSpread(spread) => {
                let name = spread.fragment_name@;
                if seen.contains(name) {
                    Expansion { fields: Seq::empty(), seen }
                } else if !fragments.contains_key(name) {
                    Expansion { fields: Seq::empty(), seen: seen.insert(name) }
                } else {
                    expand(
                        fragments,
                        seen.insert(name),
                        against(
                            fragments[name].type_condition@,
                            fragments[name].selection_set@,
                        ),
                    )
                }
            },
        },
{
    let work = seq![(ty, selection)];
    let none = Seq::<(Seq<char>, Selection)>::empty();
    assert(work.skip(1) =~= none);
    assert(expand(fragments, seen, none) == (Expansion { fields: Seq::empty(), seen }));
    match selection {
        Selection::Field(field) => {
            let head = seq![SelectedField { against: ty, field }];
            assert(head + Seq::<SelectedField>::empty() =~= head);
        },
        Selection::InlineFragment(inline) => {
            let opened = against(
                match inline.type_condition {
                    Some(condition) => condition@,
                    None => ty,
                },
                inline.selection_set@,
            );
            assert(opened + none =~= opened);
        },
        Selection::FragmentSpread(spread) => {
            let name = spread.fragment_name@;
            assert(expand(fragments, seen.insert(name), none) == (Expansion {
                fields: Seq::empty(),
                seen: seen.insert(name),
            }));
            if !seen.contains(name) && fragments.contains_key(name) {
                let opened = against(
                    fragments[name].type_condition@,
                    fragments[name].selection_set@,
                );
                assert(opened + none =~= opened);
            }
        },
    }
}

/// A fragment that is spread once more adds nothing: its fields are there already.
pub proof fn lemma_spread_again(
    fragments: Map<Seq<char>, FragmentDefinition>,
    seen: Set<Seq<char>>,
    work: Seq<(Seq<char>, Selection)>,
    ty: Seq<char>,
    spread: FragmentSpread,
)
    requires
        fragments.dom().finite(),
        expand(fragments, seen, work).seen.contains(spread.fragment_name@),
    ensures
        expand(fragments, seen, work.push((ty, Selection::FragmentSpread(spread)))) == expand(
            fragments,
            seen,
            work,
        ),
{
    let one = seq![(ty, Selection::FragmentSpread(spread))];
    let before = expand(fragments, seen, work);
    assert(work.push(one[0]) =~= work + one);
    lemma_expand_concat(fragments, seen, work, one);
    lemma_expand_one(fragments, before.seen, ty, one[0].1);
    assert(before.fields + Seq::<SelectedField>::empty() =~= before.fields);
}

/// An inline fragment without a type condition selects what its selections would select in its
/// place.
pub proof fn lemma_inline_is_transparent(
    fragments: Map<Seq<char>, FragmentDefinition>,
    seen: Set<Seq<char>>,
    before: Seq<(Seq<char>, Selection)>,
    ty: Seq<char>,
    inline: InlineFragment,
    after: Seq<(Seq<char>, Selection)>,
)
    requires
        fragments.dom().finite(),
        inline.type_condition is None,
    ensures
        expand(
            fragments,
            seen,
            before + (seq![(ty, Selection::InlineFragment(inline))] + after),
        ) == expand(fragments, seen, before + (against(ty, inline.selection_set@) + after)),
{
    let closed = seq![(ty, Selection::InlineFragment(inline))] + after;
    let opened = against(ty, inline.selection_set@) + after;
    let then_seen = expand(fragments, seen, before).seen;
    assert(closed.skip(1) =~= after);
    assert(expand(fragments, then_seen, closed) == expand(fragments, then_seen, opened));
    lemma_expand_concat(fragments, seen, before, closed);
    lemma_expand_concat(fragments, seen, before, opened);
}

/// A field stands in the expansion where it is written, against the type around it, as often as it
/// is written.
pub proof fn lemma_field_in_place(
    fragments: Map<Seq<char>, FragmentDefinition>,
    seen: Set<Seq<char>>,
    before: Seq<(Seq<char>, Selection)>,
    ty: Seq<char>,
    field: Field,
    after: Seq<(Seq<char>, Selection)>,
)
    requires
        fragments.dom().finite(),
    ensures
        ({
            let first = expand(fragments, seen, before);
            let rest = expand(fragments, first.seen, after);
            let all = expand(
                fragments,
                seen,
                before + (seq![(ty, Selection::Field(field))] + after),
            );
            &&& all.fields == first.fields + (seq![SelectedField { against: ty, field }]
                + rest.fields)
            &&& all.seen == rest.seen
        }),
{
    let more = seq![(ty, Selection::Field(field))] + after;
    lemma_expand_concat(fragments, seen, before, more);
    assert(more.skip(1) =~= after);
}

/// An inline fragment with a type condition selects what its selections would select in its place,
/// from the type of the condition.
pub proof fn lemma_inline_with_condition(
    fragments: Map<Seq<char>, FragmentDefinition>,
    seen: Set<Seq<char>>,
    before: Seq<(Seq<char>, Selection)>,
    ty: Seq<char>,
    inline: InlineFragment,
    after: Seq<(Seq<char>, Selection)>,
)
    requires
        fragments.dom().finite(),
        inline.type_condition is Some,
    ensures
        expand(
            fragments,
            seen,
            before + (seq![(ty, Selection::InlineFragment(inline))] + after),
        ) == expand(
            fragments,
            seen,
            before + (against(inline.type_condition->0@, inline.selection_set@) + after),
        ),
{
    let closed = seq![(ty, Selection::InlineFragment(inline))] + after;
    let opened = against(inline.type_condition->0@, inline.selection_set@) + after;
    let then_seen = expand(fragments, seen, before).seen;
    assert(closed.skip(1) =~= after);
    assert(expand(fragments, then_seen, closed) == expand(fragments, then_seen, opened));
    lemma_expand_concat(fragments, seen, before, closed);
    lemma_expand_concat(fragments, seen, before, opened);
}

/// The first spread of a named fragment selects what its selections would select in its place, from
/// the type of its condition.
pub proof fn lemma_first_spread(
    fragments: Map<Seq<char>, FragmentDefinition>,
    seen: Set<Seq<char>>,
    before: Seq<(Seq<char>, Selection)>,
    ty: Seq<char>,
    spread: FragmentSpread,
    after: Seq<(Seq<char>, Selection)>,
)
    requires
        fragments.dom().finite(),
        fragments.contains_key(spread.fragment_name@),
        !expand(fragments, seen, before).seen.contains(spread.fragment_name@),
    ensures
        ({
            let name = spread.fragment_name@;
            let first = expand(fragments, seen, before);
            let rest = expand(
                fragments,
                first.seen.insert(name),
                against(fragments[name].type_condition@, fragments[name].selection_set@) + after,
            );
            let all = expand(
                fragments,
                seen,
                before + (seq![(ty, Selection::FragmentSpread(spread))] + after),
            );
            &&& all.fields == first.fields + rest.fields
            &&& all.seen == rest.seen
        }),
{
    let more = seq![(ty, Selection::FragmentSpread(spread))] + after;
    lemma_expand_concat(fragments, seen, before, more);
    assert(more.skip(1) =~= after);
}

/// Selections that are expanded once more, with all fragments met that they lead to, select only
/// fields that they selected before.
pub proof fn lemma_expand_again(
    fragments: Map<Seq<char>, FragmentDefinition>,
    seen: Set<Seq<char>>,
    work: Seq<(Seq<char>, Selection)>,
    met: Set<Seq<char>>,
)
    requires
        fragments.dom().finite(),
        expand(fragments, seen, work).seen.subset_of(met),
    ensures
        forall|i: int|
            0 <= i < expand(fragments, met, work).fields.len() ==> expand(
                fragments,
                seen,
                work,
            ).fields.contains(#[trigger] expand(fragments, met, work).fields[i]),
    decreases names::unseen(fragments, seen), work_size(work),
{
    if work.len() == 0 {
        assert(expand(fragments, met, work).fields.len() == 0);
    } else {
        let (ty, selection) = work[0];
        let rest = work.skip(1);
        let before = expand(fragments, seen, work).fields;
        let again = expand(fragments, met, work).fields;
        match selection {
            Selection::Field(field) => {
                lemma_expand_again(fragments, seen, rest, met);
                let others = expand(fragments, seen, rest).fields;
                let others_again = expand(fragments, met, rest).fields;
                assert forall|i: int| 0 <= i < again.len() implies before.contains(
                    #[trigger] again[i],
                ) by {
                    if i == 0 {
                        assert(before[0] == again[0]);
                    } else {
                        assert(again[i] == others_again[i - 1]);
                        let j = choose|j: int| 0 <= j < others.len() && others[j] == again[i];
                        assert(before[j + 1] == again[i]);
                    }
                }
            },
            Selection::InlineFragment(inline) => {
                let inner = match inline.type_condition {
                    Some(condition) => condition@,
                    None => ty,
                };
                let opened = against(inner, inline.selection_set@);
                lemma_work_size(inner, inline.selection_set@, rest);
                lemma_expand_again(fragments, seen, opened + rest, met);
                assert(again == expand(fragments, met, opened + rest).fields);
            },
            Selection::FragmentSpread(spread) => {
                let name = spread.fragment_name@;
                let one = seq![work[0]];
                assert(work =~= one + rest);
                lemma_expand_concat(fragments, seen, one, rest);
                lemma_expand_one(fragments, seen, ty, selection);
                names::lemma_unseen_insert(fragments, seen, name);
                let of_one = expand(fragments, seen, one);
                if !seen.contains(name) && fragments.contains_key(name) {
                    lemma_expand_concat(
                        fragments,
                        seen.insert(name),
                        against(fragments[name].type_condition@, fragments[name].selection_set@),
                        rest,
                    );
                }
                lemma_expand_concat(fragments, of_one.seen, rest, Seq::empty());
                assert(of_one.seen.contains(name));
                assert(seen.contains(name) ==> seen.insert(name) =~= seen);
                names::lemma_unseen_subset(fragments, seen.insert(name), of_one.seen);
                lemma_expand_again(fragments, of_one.seen, rest, met);
                let others = expand(fragments, of_one.seen, rest).fields;
                let others_again = expand(fragments, met, rest).fields;
                assert(met.contains(name));
                assert(again == others_again);
                assert(before == of_one.fields + others);
                assert forall|i: int| 0 <= i < again.len() implies before.contains(
                    #[trigger] again[i],
                ) by {
                    assert(others.contains(others_again[i]));
                    let j = choose|j: int| 0 <= j < others.len() && others[j] == again[i];
                    assert(before[of_one.fields.len() + j] == again[i]);
                }
            },
        }
    }
}

/// Adds to `fields` the fields that the selections select, and to `seen` the fragments met.
pub(crate) fn expand_into<'a>(
    named_fragments: &'a NamedFragments,
    seen: &mut NameSet,
    against_type: &'a NamedType,
    selections: &'a [Selection],
    fields: &mut Vec<FieldAgainstType<'a>>,
)
    ensures
        selected(final(fields)@) == selected(old(fields)@) + expand(
            named_fragments@,
            old(seen)@,
            against(against_type@, selections@),
        ).fields,
        final(seen)@ == expand(
            named_fragments@,
            old(seen)@,
            against(against_type@, selections@),
        ).seen,
    decreases names::unseen(named_fragments@, old(seen)@), selections_size(selections@),
{
    proof {
        use_type_invariant(named_fragments);
    }
    let ghost all = against(against_type@, selections@);
    assert(all.take(0) =~= Seq::empty());
    assert(selected(fields@) + Seq::<SelectedField>::empty() =~= selected(fields@));
    let mut i: usize = 0;
    while i < selections.len()
        invariant
            i <= selections.len(),
            named_fragments@.dom().finite(),
            all == against(against_type@, selections@),
            selected(fields@) == selected(old(fields)@) + expand(
                named_fragments@,
                old(seen)@,
                all.take(i as int),
            ).fields,
            seen@ == expand(named_fragments@, old(seen)@, all.take(i as int)).seen,
        decreases selections.len() - i,
    {
        let ghost seen_before = seen@;
        let ghost fields_before = fields@;
        let ghost one = seq![all[i as int]];
        let selection = &selections[i];
        proof {
            assert(all.take(i + 1) =~= all.take(i as int) + one);
            lemma_expand_concat(named_fragments@, old(seen)@, all.take(i as int), one);
            lemma_expand_one(named_fragments@, seen@, against_type@, *selection);
            lemma_selection_size(selections@, i as int);
            names::lemma_unseen_subset(named_fragments@, old(seen)@, seen@);
        }
        match selection {
            Selection::Field(field) => {
                fields.push(FieldAgainstType { against_type, field });
                assert(selected(fields@) =~= selected(fields_before) + seq![
                    SelectedField { against: against_type@, field: *field },
                ]);
            },
            Selection::InlineFragment(inline) => {
                let inner = match &inline.type_condition {
                    Some(condition) => condition,
                    None => against_type,
                };
                expand_into(named_fragments, seen, inner, inline.selection_set.as_slice(), fields);
            },
            Selection::FragmentSpread(spread) => {
                proof {
                    names::lemma_unseen_insert(named_fragments@, seen@, spread.fragment_name@);
                }
                if !seen.contains(spread.fragment_name.as_str()) {
                    seen.insert(spread.fragment_name.clone());
                    if let Some(fragment) = named_fragments.get(spread.fragment_name.as_str()) {
                        expand_into(
                            named_fragments,
                            seen,
                            &fragment.type_condition,
                            fragment.selection_set.as_slice(),
                            fields,
                        );
                    }
                }
            },
        }
        proof {
            let first = expand(named_fragments@, old(seen)@, all.take(i as int));
            let more = expand(named_fragments@, seen_before, one);
            assert(selected(fields@) =~= selected(fields_before) + more.fields);
            assert((selected(old(fields)@) + first.fields) + more.fields =~= selected(old(fields)@)
                + (first.fields + more.fields));
        }
        i += 1;
    }
    assert(all.take(i as int) =~= all);
}

/// The fields that a selection set on the given type selects, with fragments expanded.
pub fn operation_fields<'a>(
    named_fragments: &'a NamedFragments,
    against_type: &'a NamedType,
    selections: &'a [Selection],
) -> (result: Vec<FieldAgainstType<'a>>)
    ensures
        selected(result@) == fields_of(named_fragments@, against_type@, selections@),
{
    let mut fields: Vec<FieldAgainstType<'a>> = Vec::new();
    let mut seen = NameSet::new();
    expand_into(named_fragments, &mut seen, against_type, selections, &mut fields);
    assert(selected(fields@) =~= fields_of(named_fragments@, against_type@, selections@));
    fields
}

/// The response name of a field.
pub open spec fn by_response_name() -> spec_fn(SelectedField) -> Seq<char> {
    |field: SelectedField| field.field.response_key()
}

/// The fields with one response name.
#[derive(Debug)]
pub struct FieldGroup<'a> {
    pub response_name: &'a Name,
    pub fields: Vec<FieldAgainstType<'a>>,
}

impl<'a> View for FieldGroup<'a> {
    type V = (Seq<char>, Seq<SelectedField>);

    open spec fn view(&self) -> (Seq<char>, Seq<SelectedField>) {
        (self.response_name@, selected(self.fields@))
    }
}

/// The groups, each a response name and its fields.
pub open spec fn groups_view(groups: Seq<FieldGroup<'_>>) -> Seq<(Seq<char>, Seq<SelectedField>)> {
    groups.map_values(|group: FieldGroup<'_>| group@)
}

/// The fields grouped by their response name, in the order in which the names first occur.
pub open spec fn fields_by_name(fields: Seq<SelectedField>) -> Seq<
    (Seq<char>, Seq<SelectedField>),
> {
    grouping::grouped(fields, by_response_name())
}

/// Given a list of fields, group them by response name.
///
/// The groups come in the order in which their names first occur, and hold their fields in their
/// order.
pub fn group_fields_by_name<'a>(fields: Vec<FieldAgainstType<'a>>) -> (result: Vec<FieldGroup<'a>>)
    ensures
        groups_view(result@) == fields_by_name(selected(fields@)),
{
    let mut groups: Vec<FieldGroup<'a>> = Vec::new();
    let mut positions: StringHashMap<usize> = StringHashMap::new();
    let ghost key = by_response_name();
    assert(groups_view(groups@) =~= fields_by_name(selected(fields@.take(0))));
    let mut i: usize = 0;
    while i < fields.len()
        invariant
            i <= fields.len(),
            key == by_response_name(),
            groups_view(groups@) == fields_by_name(selected(fields@.take(i as int))),
            forall|k: Seq<char>|
                #![trigger positions@.contains_key(k)]
                positions@.contains_key(k) ==> positions@[k] < groups.len()
                    && groups[positions@[k] as int].response_name@ == k,
            forall|j: int|
                0 <= j < groups.len() ==> positions@.contains_key(
                    (#[trigger] groups[j]).response_name@,
                ),
        decreases fields.len() - i,
    {
        let field = fields[i];
        let name = field.field.response_name();
        let ghost before = groups_view(groups@);
        proof {
            let taken = selected(fields@.take(i as int));
            assert(selected(fields@.take(i + 1)) =~= taken.push(field@));
            grouping::lemma_grouped_push(taken, field@, key);
            grouping::lemma_grouped(taken, key);
            assert forall|j: int| 0 <= j < groups.len() implies (#[trigger] before[j]).0
                == grouping::keys_in_order(taken, key)[j] by {}
        }
        match positions.get(name.as_str()) {
            Some(position) => {
                let position = *position;
                proof {
                    assert(before[position as int].0 == name@);
                    let j = grouping::group_index(before, name@);
                    assert(before[j].0 == name@);
                    assert(j == position);
                }
                let ghost members_before = groups[position as int].fields@;
                groups[position].fields.push(field);
                assert(selected(members_before.push(field)) =~= selected(members_before).push(field@));
                assert(before[position as int].1 == selected(members_before));
                assert(groups_view(groups@) =~= grouping::with_item(before, name@, field@));
            },
            None => {
                let mut members: Vec<FieldAgainstType<'a>> = Vec::new();
                members.push(field);
                positions.insert(name.clone(), groups.len());
                groups.push(FieldGroup { response_name: name, fields: members });
                assert(!grouping::has_group(before, name@));
                assert(selected(members@) =~= seq![field@]);
                assert(groups_view(groups@) =~= grouping::with_item(before, name@, field@));
            },
        }
        i += 1;
    }
    assert(fields@.take(i as int) =~= fields@);
    groups
}

} // verus!
