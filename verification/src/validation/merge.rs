//! Whether the fields of a selection set can be merged.
use vstd::prelude::*;

use crate::ast;
use crate::ast::{FragmentDefinition, NamedType, Selection};
use crate::database::{NamedFragments, ValidationDatabase};
use crate::diagnostics;
use crate::diagnostics::{
    ApolloDiagnostic, DataView, DiagnosticData, DiagnosticView, Label, LabelView,
};
use crate::lookup;
use crate::names::NameSet;
use crate::schema::ExtendedType;
use crate::validation::arguments;
use crate::validation::arguments::identical_arguments;
use crate::validation::fields;
use crate::validation::fields::{
    expand_into, group_fields_by_name, operation_fields, FieldAgainstType, SelectedField,
};
use crate::validation::pairs;
use crate::validation::pairs::push_group_pairs;
use crate::validation::shape;
use crate::validation::shape::{same_response_shape, Comparison};

verus! {

/// The conflict between two fields of different names that have the same response name.
pub open spec fn name_conflict(a: SelectedField, b: SelectedField) -> Option<Seq<DiagnosticView>> {
    match (a.field.location, b.field.location) {
        (Some(location_a), Some(location_b)) => Some(
            seq![
                DiagnosticView {
                    location: location_b,
                    data: DataView::ConflictingField {
                        field: b.field.name@,
                        original_selection: location_a,
                        redefined_selection: location_b,
                    },
                    labels: seq![
                        LabelView {
                            location: location_a,
                            text: "field `"@ + a.field.response_key()
                                + "` is selected from field `"@ + a.field.name@ + "` here"@,
                        },
                        LabelView {
                            location: location_b,
                            text: "but the same field `"@ + b.field.response_key()
                                + "` is also selected from field `"@ + b.field.name@ + "` here"@,
                        },
                    ],
                    help: Some("Alias is already used for a different field"@),
                },
            ],
        ),
        _ => None,
    }
}

/// Whether the type with the given name is an object type.
pub open spec fn is_object(db: ValidationDatabase, ty: Seq<char>) -> bool {
    db.schema.type_called(ty) matches Some(ExtendedType::Object(_))
}

/// Whether two fields with the same response name may be asked of the same object: they select from
/// the same type, or one of the types they select from is not an object type.
pub open spec fn may_meet(db: ValidationDatabase, a: SelectedField, b: SelectedField) -> bool {
    a.against == b.against || !is_object(db, a.against) || !is_object(db, b.against)
}

/// The type that a field selects from below it: its own type, or that of the field it is merged
/// with where its own is not known.
pub open spec fn type_below(
    db: ValidationDatabase,
    field: SelectedField,
    merged_with: SelectedField,
) -> Option<Seq<char>> {
    match db.schema.field_of(field.against, field.field.name@) {
        Some(def) => Some(ast::inner_name(def.ty)@),
        None => match db.schema.field_of(merged_with.against, merged_with.field.name@) {
            Some(def) => Some(ast::inner_name(def.ty)@),
            None => None,
        },
    }
}

/// The fields that two fields select below them, taken together as one selection set. Nothing is
/// known of them where neither of the two has a known type.
pub open spec fn merged_below(
    db: ValidationDatabase,
    fragments: Map<Seq<char>, FragmentDefinition>,
    a: SelectedField,
    b: SelectedField,
) -> Seq<SelectedField> {
    match (type_below(db, a, b), type_below(db, b, a)) {
        (Some(ty_a), Some(ty_b)) => fields::expand(
            fragments,
            Set::empty(),
            fields::against(ty_a, a.field.selection_set@) + fields::against(
                ty_b,
                b.field.selection_set@,
            ),
        ).fields,
        _ => Seq::empty(),
    }
}

/// Whether the type of the first of the fields is known.
pub open spec fn first_is_known(db: ValidationDatabase, members: Seq<SelectedField>) -> bool {
    members.len() > 0 && db.schema.field_of(members[0].against, members[0].field.name@) is Some
}

/// The groups whose first field has a known type.
pub open spec fn known_groups(
    db: ValidationDatabase,
    groups: Seq<(Seq<char>, Seq<SelectedField>)>,
) -> Seq<(Seq<char>, Seq<SelectedField>)>
    decreases groups.len(),
{
    if groups.len() == 0 {
        Seq::empty()
    } else if first_is_known(db, groups[0].1) {
        seq![groups[0]] + known_groups(db, groups.skip(1))
    } else {
        known_groups(db, groups.skip(1))
    }
}

/// The pairs of fields that have to merge: each two with the same response name, except where the
/// type of the first field with that name is not known.
pub open spec fn merge_pairs(db: ValidationDatabase, selected: Seq<SelectedField>) -> Seq<
    (SelectedField, SelectedField),
> {
    pairs::pairs(known_groups(db, fields::fields_by_name(selected)))
}

/// What keeps two fields with the same response name from being merged, looking at most `depth`
/// levels below them. `None` stands for a comparison that does not end within them, or that needs
/// the location of a field or an argument that has none.
///
/// The two must have the same shape. Unless they select from two different object types they must
/// also have the same name and the same arguments, and what they select below them must merge.
pub open spec fn pair_report_within(
    db: ValidationDatabase,
    fragments: Map<Seq<char>, FragmentDefinition>,
    depth: nat,
    a: SelectedField,
    b: SelectedField,
) -> Option<Seq<DiagnosticView>>
    decreases depth, 0nat,
{
    match shape::shape_comparison(db, a, b) {
        Comparison::Undetermined => None,
        Comparison::Conflict(diagnostic) => Some(seq![diagnostic]),
        Comparison::Same => if !may_meet(db, a, b) {
            Some(Seq::empty())
        } else if a.field.name@ != b.field.name@ {
            name_conflict(a, b)
        } else {
            match arguments::argument_comparison(a.field, b.field) {
                Comparison::Undetermined => None,
                Comparison::Conflict(diagnostic) => Some(seq![diagnostic]),
                Comparison::Same => if depth == 0 {
                    None
                } else {
                    pairs_report_within(
                        db,
                        fragments,
                        (depth - 1) as nat,
                        merge_pairs(db, merged_below(db, fragments, a, b)),
                    )
                },
            }
        },
    }
}

/// What keeps each of the pairs from being merged, one after the other.
pub open spec fn pairs_report_within(
    db: ValidationDatabase,
    fragments: Map<Seq<char>, FragmentDefinition>,
    depth: nat,
    pairs: Seq<(SelectedField, SelectedField)>,
) -> Option<Seq<DiagnosticView>>
    decreases depth, pairs.len() + 1,
{
    if pairs.len() == 0 {
        Some(Seq::empty())
    } else {
        match (
            pair_report_within(db, fragments, depth, pairs[0].0, pairs[0].1),
            pairs_report_within(db, fragments, depth, pairs.skip(1)),
        ) {
            (Some(first), Some(others)) => Some(first + others),
            _ => None,
        }
    }
}

/// What keeps the fields from being merged, looking at most `depth` levels below them: in the
/// order of the response names, the conflicts of each field with each of those after it.
pub open spec fn report_within(
    db: ValidationDatabase,
    fragments: Map<Seq<char>, FragmentDefinition>,
    depth: nat,
    selected: Seq<SelectedField>,
) -> Option<Seq<DiagnosticView>> {
    pairs_report_within(db, fragments, depth, merge_pairs(db, selected))
}

/// Whether looking so many levels below the fields is enough to see whether they can be merged.
pub open spec fn merge_ends(
    db: ValidationDatabase,
    fragments: Map<Seq<char>, FragmentDefinition>,
    selected: Seq<SelectedField>,
) -> spec_fn(nat) -> bool {
    |depth: nat| report_within(db, fragments, depth, selected) is Some
}

/// How many levels below the fields it takes to see whether they can be merged.
pub open spec fn merge_depth(
    db: ValidationDatabase,
    fragments: Map<Seq<char>, FragmentDefinition>,
    selected: Seq<SelectedField>,
) -> nat {
    lookup::least(merge_ends(db, fragments, selected))
}

/// What keeps the fields from being merged.
pub open spec fn merge_report(
    db: ValidationDatabase,
    fragments: Map<Seq<char>, FragmentDefinition>,
    selected: Seq<SelectedField>,
) -> Option<Seq<DiagnosticView>> {
    report_within(db, fragments, merge_depth(db, fragments, selected), selected)
}

/// What keeps the fields of a selection set on a type from being merged.
pub open spec fn set_report(
    db: ValidationDatabase,
    fragments: Map<Seq<char>, FragmentDefinition>,
    ty: Seq<char>,
    selections: Seq<Selection>,
) -> Option<Seq<DiagnosticView>> {
    merge_report(db, fragments, fields::fields_of(fragments, ty, selections))
}

/// Looking further below the pairs than needed does not change what is reported.
pub proof fn lemma_report_monotone(
    db: ValidationDatabase,
    fragments: Map<Seq<char>, FragmentDefinition>,
    depth: nat,
    more: nat,
    pairs: Seq<(SelectedField, SelectedField)>,
)
    requires
        depth <= more,
        pairs_report_within(db, fragments, depth, pairs) is Some,
    ensures
        pairs_report_within(db, fragments, more, pairs) == pairs_report_within(
            db,
            fragments,
            depth,
            pairs,
        ),
    decreases depth, pairs.len(),
{
    if pairs.len() > 0 {
        let (a, b) = pairs[0];
        if depth > 0 {
            let below = merge_pairs(db, merged_below(db, fragments, a, b));
            if pairs_report_within(db, fragments, (depth - 1) as nat, below) is Some {
                lemma_report_monotone(
                    db,
                    fragments,
                    (depth - 1) as nat,
                    (more - 1) as nat,
                    below,
                );
            }
        }
        assert(pair_report_within(db, fragments, more, a, b) == pair_report_within(
            db,
            fragments,
            depth,
            a,
            b,
        ));
        lemma_report_monotone(db, fragments, depth, more, pairs.skip(1));
    }
}

/// Where looking to some depth is enough, what is reported is what is seen there.
pub proof fn lemma_merge_report(
    db: ValidationDatabase,
    fragments: Map<Seq<char>, FragmentDefinition>,
    depth: nat,
    selected: Seq<SelectedField>,
)
    requires
        report_within(db, fragments, depth, selected) is Some,
    ensures
        merge_report(db, fragments, selected) == report_within(db, fragments, depth, selected),
        merge_depth(db, fragments, selected) <= depth,
{
    let ends = merge_ends(db, fragments, selected);
    assert(ends(depth));
    lookup::lemma_least(ends, depth);
    assert(ends(merge_depth(db, fragments, selected)));
    lemma_report_monotone(
        db,
        fragments,
        merge_depth(db, fragments, selected),
        depth,
        merge_pairs(db, selected),
    );
}

/// What keeps two fields with the same response name from being merged, `None` where that is not
/// determined.
pub open spec fn pair_report(
    db: ValidationDatabase,
    fragments: Map<Seq<char>, FragmentDefinition>,
    a: SelectedField,
    b: SelectedField,
) -> Option<Seq<DiagnosticView>> {
    match shape::shape_comparison(db, a, b) {
        Comparison::Undetermined => None,
        Comparison::Conflict(diagnostic) => Some(seq![diagnostic]),
        Comparison::Same => if !may_meet(db, a, b) {
            Some(Seq::empty())
        } else if a.field.name@ != b.field.name@ {
            name_conflict(a, b)
        } else {
            match arguments::argument_comparison(a.field, b.field) {
                Comparison::Undetermined => None,
                Comparison::Conflict(diagnostic) => Some(seq![diagnostic]),
                Comparison::Same => merge_report(db, fragments, merged_below(db, fragments, a, b)),
            }
        },
    }
}

/// What keeps each of the pairs from being merged, one after the other.
pub open spec fn pairs_report(
    db: ValidationDatabase,
    fragments: Map<Seq<char>, FragmentDefinition>,
    pairs: Seq<(SelectedField, SelectedField)>,
) -> Option<Seq<DiagnosticView>>
    decreases pairs.len(),
{
    if pairs.len() == 0 {
        Some(Seq::empty())
    } else {
        match (
            pair_report(db, fragments, pairs[0].0, pairs[0].1),
            pairs_report(db, fragments, pairs.skip(1)),
        ) {
            (Some(first), Some(others)) => Some(first + others),
            _ => None,
        }
    }
}

proof fn lemma_pairs_report(
    db: ValidationDatabase,
    fragments: Map<Seq<char>, FragmentDefinition>,
    depth: nat,
    pairs: Seq<(SelectedField, SelectedField)>,
)
    requires
        pairs_report_within(db, fragments, depth, pairs) is Some,
    ensures
        pairs_report_within(db, fragments, depth, pairs) == pairs_report(db, fragments, pairs),
    decreases pairs.len(),
{
    if pairs.len() > 0 {
        let (a, b) = pairs[0];
        if depth > 0 {
            let below = merged_below(db, fragments, a, b);
            if report_within(db, fragments, (depth - 1) as nat, below) is Some {
                lemma_merge_report(db, fragments, (depth - 1) as nat, below);
            }
        }
        assert(pair_report_within(db, fragments, depth, a, b) == pair_report(db, fragments, a, b));
        lemma_pairs_report(db, fragments, depth, pairs.skip(1));
    }
}

/// What is reported of fields, wherever that is determined: for each response name, in the order
/// in which the names first occur, what keeps each of its fields from being merged with each of
/// those after it.
pub proof fn lemma_merge_unfolds(
    db: ValidationDatabase,
    fragments: Map<Seq<char>, FragmentDefinition>,
    selected: Seq<SelectedField>,
)
    requires
        merge_report(db, fragments, selected) is Some,
    ensures
        merge_report(db, fragments, selected) == pairs_report(
            db,
            fragments,
            merge_pairs(db, selected),
        ),
{
    lemma_pairs_report(
        db,
        fragments,
        merge_depth(db, fragments, selected),
        merge_pairs(db, selected),
    );
}

proof fn lemma_pairs_accepted(
    db: ValidationDatabase,
    fragments: Map<Seq<char>, FragmentDefinition>,
    pairs: Seq<(SelectedField, SelectedField)>,
)
    requires
        pairs_report(db, fragments, pairs) is Some,
    ensures
        pairs_report(db, fragments, pairs)->0.len() == 0 <==> forall|i: int|
            0 <= i < pairs.len() ==> pair_report(
                db,
                fragments,
                (#[trigger] pairs[i]).0,
                pairs[i].1,
            ) == Some(Seq::<DiagnosticView>::empty()),
    decreases pairs.len(),
{
    if pairs.len() > 0 {
        let others = pairs.skip(1);
        lemma_pairs_accepted(db, fragments, others);
        if pairs_report(db, fragments, pairs)->0.len() == 0 {
            assert forall|i: int| 0 <= i < pairs.len() implies pair_report(
                db,
                fragments,
                (#[trigger] pairs[i]).0,
                pairs[i].1,
            ) == Some(Seq::<DiagnosticView>::empty()) by {
                if i > 0 {
                    assert(pairs[i] == others[i - 1]);
                } else {
                    assert(pair_report(db, fragments, pairs[0].0, pairs[0].1)->0
                        =~= Seq::<DiagnosticView>::empty());
                }
            }
        } else if forall|i: int|
            0 <= i < pairs.len() ==> pair_report(
                db,
                fragments,
                (#[trigger] pairs[i]).0,
                pairs[i].1,
            ) == Some(Seq::<DiagnosticView>::empty()) {
            assert forall|i: int| 0 <= i < others.len() implies pair_report(
                db,
                fragments,
                (#[trigger] others[i]).0,
                others[i].1,
            ) == Some(Seq::<DiagnosticView>::empty()) by {
                assert(others[i] == pairs[i + 1]);
            }
            assert(pair_report(db, fragments, pairs[0].0, pairs[0].1)->0.len() == 0);
        }
    }
}

/// Fields are accepted exactly where each two of them that have to merge can be merged.
pub proof fn lemma_merge_accepts(
    db: ValidationDatabase,
    fragments: Map<Seq<char>, FragmentDefinition>,
    selected: Seq<SelectedField>,
)
    requires
        merge_report(db, fragments, selected) is Some,
    ensures
        merge_report(db, fragments, selected) == Some(Seq::<DiagnosticView>::empty()) <==> ({
            let pairs = merge_pairs(db, selected);
            forall|i: int|
                0 <= i < pairs.len() ==> pair_report(
                    db,
                    fragments,
                    (#[trigger] pairs[i]).0,
                    pairs[i].1,
                ) == Some(Seq::<DiagnosticView>::empty())
        }),
{
    let pairs = merge_pairs(db, selected);
    lemma_merge_unfolds(db, fragments, selected);
    lemma_pairs_accepted(db, fragments, pairs);
    if pairs_report(db, fragments, pairs)->0.len() == 0 {
        assert(pairs_report(db, fragments, pairs)->0 =~= Seq::<DiagnosticView>::empty());
    }
}

/// Nothing is reported of no fields.
pub proof fn lemma_no_fields_merge(
    db: ValidationDatabase,
    fragments: Map<Seq<char>, FragmentDefinition>,
)
    ensures
        merge_report(db, fragments, Seq::empty()) == Some(Seq::<DiagnosticView>::empty()),
{
    assert(fields::fields_by_name(Seq::empty()).len() == 0);
    lemma_merge_report(db, fragments, 0, Seq::empty());
}

/// Nothing is reported of a selection set without selections.
pub proof fn lemma_empty_set_merges(
    db: ValidationDatabase,
    fragments: Map<Seq<char>, FragmentDefinition>,
    ty: Seq<char>,
)
    requires
        fragments.dom().finite(),
    ensures
        set_report(db, fragments, ty, Seq::empty()) == Some(Seq::<DiagnosticView>::empty()),
{
    assert(fields::against(ty, Seq::empty()).len() == 0);
    assert(fields::fields_of(fragments, ty, Seq::empty()) =~= Seq::empty());
    lemma_no_fields_merge(db, fragments);
}

proof fn lemma_known_group_is(
    db: ValidationDatabase,
    groups: Seq<(Seq<char>, Seq<SelectedField>)>,
    i: int,
) -> (g: int)
    requires
        0 <= i < known_groups(db, groups).len(),
    ensures
        0 <= g < groups.len(),
        groups[g] == known_groups(db, groups)[i],
        first_is_known(db, groups[g].1),
    decreases groups.len(),
{
    let others = groups.skip(1);
    if first_is_known(db, groups[0].1) {
        if i == 0 {
            0
        } else {
            assert(known_groups(db, groups)[i] == known_groups(db, others)[i - 1]);
            lemma_known_group_is(db, others, i - 1) + 1
        }
    } else {
        lemma_known_group_is(db, others, i) + 1
    }
}

proof fn lemma_is_known_group(
    db: ValidationDatabase,
    groups: Seq<(Seq<char>, Seq<SelectedField>)>,
    g: int,
) -> (i: int)
    requires
        0 <= g < groups.len(),
        first_is_known(db, groups[g].1),
    ensures
        0 <= i < known_groups(db, groups).len(),
        known_groups(db, groups)[i] == groups[g],
    decreases groups.len(),
{
    let others = groups.skip(1);
    if g == 0 {
        0
    } else {
        let i = lemma_is_known_group(db, others, g - 1);
        if first_is_known(db, groups[0].1) {
            assert(known_groups(db, groups)[i + 1] == known_groups(db, others)[i]);
            i + 1
        } else {
            i
        }
    }
}

/// Every pair that has to merge is made of two fields with the same response name, the first of
/// which has a known type: the group of the name, and the places of the two in it.
pub proof fn lemma_merge_pair_is(
    db: ValidationDatabase,
    selected: Seq<SelectedField>,
    i: int,
) -> (at: (int, int, int))
    requires
        0 <= i < merge_pairs(db, selected).len(),
    ensures
        ({
            let groups = fields::fields_by_name(selected);
            &&& 0 <= at.0 < groups.len()
            &&& 0 <= at.1 < at.2 < groups[at.0].1.len()
            &&& first_is_known(db, groups[at.0].1)
            &&& merge_pairs(db, selected)[i] == (groups[at.0].1[at.1], groups[at.0].1[at.2])
        }),
{
    let groups = fields::fields_by_name(selected);
    let at = pairs::lemma_pair_is(known_groups(db, groups), i);
    let g = lemma_known_group_is(db, groups, at.0);
    (g, at.1, at.2)
}

/// Any two fields with the same response name have to merge, where the first field with that name
/// has a known type: the place of the pair.
pub proof fn lemma_is_merge_pair(
    db: ValidationDatabase,
    selected: Seq<SelectedField>,
    g: int,
    p: int,
    q: int,
) -> (i: int)
    requires
        0 <= g < fields::fields_by_name(selected).len(),
        0 <= p < q < fields::fields_by_name(selected)[g].1.len(),
        first_is_known(db, fields::fields_by_name(selected)[g].1),
    ensures
        0 <= i < merge_pairs(db, selected).len(),
        merge_pairs(db, selected)[i] == (
            fields::fields_by_name(selected)[g].1[p],
            fields::fields_by_name(selected)[g].1[q],
        ),
{
    let groups = fields::fields_by_name(selected);
    let known = lemma_is_known_group(db, groups, g);
    pairs::lemma_is_pair(known_groups(db, groups), known, p, q)
}

fn name_conflict_diagnostic(field_a: FieldAgainstType<'_>, field_b: FieldAgainstType<'_>) -> (result:
    ApolloDiagnostic)
    requires
        field_a.field.location is Some,
        field_b.field.location is Some,
    ensures
        name_conflict(field_a@, field_b@) == Some(seq![result@]),
{
    let location_a = field_a.field.location.unwrap();
    let location_b = field_b.field.location.unwrap();
    let mut here = "field `".to_owned();
    here.append(field_a.field.response_name().as_str());
    here.append("` is selected from field `");
    here.append(field_a.field.name.as_str());
    here.append("` here");
    let mut there = "but the same field `".to_owned();
    there.append(field_b.field.response_name().as_str());
    there.append("` is also selected from field `");
    there.append(field_b.field.name.as_str());
    there.append("` here");
    let diagnostic = ApolloDiagnostic::new(
        location_b,
        DiagnosticData::ConflictingField {
            field: field_b.field.name.clone(),
            original_selection: location_a,
            redefined_selection: location_b,
        },
    ).label(Label::new(location_a, here)).label(Label::new(location_b, there)).help(
        "Alias is already used for a different field",
    );
    assert(diagnostic@.labels =~= seq![
        LabelView { location: location_a, text: here@ },
        LabelView { location: location_b, text: there@ },
    ]);
    diagnostic
}

/// The fields that two selection sets select, taken together as one set.
fn merged_fields<'a>(
    named_fragments: &'a NamedFragments,
    type_a: &'a NamedType,
    first: &'a [Selection],
    type_b: &'a NamedType,
    second: &'a [Selection],
) -> (result: Vec<FieldAgainstType<'a>>)
    ensures
        fields::selected(result@) == fields::expand(
            named_fragments@,
            Set::empty(),
            fields::against(type_a@, first@) + fields::against(type_b@, second@),
        ).fields,
{
    proof {
        use_type_invariant(named_fragments);
        fields::lemma_expand_concat(
            named_fragments@,
            Set::empty(),
            fields::against(type_a@, first@),
            fields::against(type_b@, second@),
        );
    }
    let mut result: Vec<FieldAgainstType<'a>> = Vec::new();
    let mut seen = NameSet::new();
    expand_into(named_fragments, &mut seen, type_a, first, &mut result);
    expand_into(named_fragments, &mut seen, type_b, second, &mut result);
    assert(fields::selected(result@) =~= fields::expand(
        named_fragments@,
        Set::empty(),
        fields::against(type_a@, first@) + fields::against(type_b@, second@),
    ).fields);
    result
}

fn is_object_type(db: &ValidationDatabase, ty: &NamedType) -> (result: bool)
    ensures
        result == is_object(*db, ty@),
{
    matches!(db.schema.types.get(ty.as_str()), Some(ExtendedType::Object(_)))
}

/// The pairs of fields that have to merge.
fn pairs_to_merge<'a>(db: &ValidationDatabase, fields: Vec<FieldAgainstType<'a>>) -> (result: Vec<
    (FieldAgainstType<'a>, FieldAgainstType<'a>),
>)
    ensures
        pairs::pairs_view(result@) == merge_pairs(*db, fields::selected(fields@)),
{
    let groups = group_fields_by_name(fields);
    let mut found: Vec<(FieldAgainstType<'a>, FieldAgainstType<'a>)> = Vec::new();
    let ghost all = fields::groups_view(groups@);
    let ghost wanted = pairs::pairs(known_groups(*db, all));
    assert(all.skip(0) =~= all);
    assert(pairs::pairs_view(found@) + wanted =~= wanted);
    let mut g: usize = 0;
    while g < groups.len()
        invariant
            g <= groups.len(),
            all == fields::groups_view(groups@),
            wanted == pairs::pairs_view(found@) + pairs::pairs(
                known_groups(*db, all.skip(g as int)),
            ),
        decreases groups.len() - g,
    {
        let ghost before = pairs::pairs_view(found@);
        let members = &groups[g].fields;
        proof {
            assert(all.skip(g as int)[0] == all[g as int]);
            assert(all.skip(g as int).skip(1) =~= all.skip(g + 1));
            assert(all[g as int].1 == fields::selected(members@));
        }
        if members.len() > 0 && db.schema.type_field(
            members[0].against_type.as_str(),
            members[0].field.name.as_str(),
        ).is_some() {
            push_group_pairs(members, &mut found);
            proof {
                let known = known_groups(*db, all.skip(g + 1));
                let more = seq![all[g as int]] + known;
                assert(more.skip(1) =~= known);
                let one = pairs::group_pairs(all[g as int].1);
                assert(before + (one + pairs::pairs(known)) =~= (before + one) + pairs::pairs(
                    known,
                ));
            }
        }
        g += 1;
    }
    assert(pairs::pairs_view(found@) + pairs::pairs(known_groups(*db, all.skip(g as int)))
        =~= pairs::pairs_view(found@));
    found
}

/// The fields that two fields select below them, taken together as one selection set.
fn fields_below_both<'a>(
    db: &'a ValidationDatabase,
    named_fragments: &'a NamedFragments,
    field_a: FieldAgainstType<'a>,
    field_b: FieldAgainstType<'a>,
) -> (result: Vec<FieldAgainstType<'a>>)
    ensures
        fields::selected(result@) == merged_below(*db, named_fragments@, field_a@, field_b@),
{
    let def_a = db.schema.type_field(field_a.against_type.as_str(), field_a.field.name.as_str());
    let def_b = db.schema.type_field(field_b.against_type.as_str(), field_b.field.name.as_str());
    let (type_a, type_b) = match (def_a, def_b) {
        (Some(def_a), Some(def_b)) => (def_a.ty.inner_named_type(), def_b.ty.inner_named_type()),
        (Some(def), None) => (def.ty.inner_named_type(), def.ty.inner_named_type()),
        (None, Some(def)) => (def.ty.inner_named_type(), def.ty.inner_named_type()),
        (None, None) => {
            let none: Vec<FieldAgainstType<'a>> = Vec::new();
            assert(fields::selected(none@) =~= Seq::empty());
            return none;
        },
    };
    merged_fields(
        named_fragments,
        type_a,
        field_a.field.selection_set.as_slice(),
        type_b,
        field_b.field.selection_set.as_slice(),
    )
}

/// What keeps the given fields from being merged.
fn merge_fields(
    db: &ValidationDatabase,
    named_fragments: &NamedFragments,
    fields: Vec<FieldAgainstType<'_>>,
) -> (result: Vec<ApolloDiagnostic>)
    requires
        merge_report(*db, named_fragments@, fields::selected(fields@)) is Some,
    ensures
        merge_report(*db, named_fragments@, fields::selected(fields@)) == Some(
            diagnostics::diagnostics_view(result@),
        ),
    decreases merge_depth(*db, named_fragments@, fields::selected(fields@)),
{
    let ghost fragments = named_fragments@;
    let ghost depth = merge_depth(*db, fragments, fields::selected(fields@));
    let ghost report = merge_report(*db, fragments, fields::selected(fields@))->0;
    let found = pairs_to_merge(db, fields);
    let ghost all = pairs::pairs_view(found@);
    let mut diagnostics: Vec<ApolloDiagnostic> = Vec::new();
    proof {
        assert(all.skip(0) =~= all);
        assert(diagnostics::diagnostics_view(diagnostics@) + report =~= report);
    }
    let mut i: usize = 0;
    while i < found.len()
        invariant
            i <= found.len(),
            fragments == named_fragments@,
            all == pairs::pairs_view(found@),
            depth == merge_depth(*db, fragments, fields::selected(fields@)),
            pairs_report_within(*db, fragments, depth, all.skip(i as int)) is Some,
            report == diagnostics::diagnostics_view(diagnostics@) + pairs_report_within(
                *db,
                fragments,
                depth,
                all.skip(i as int),
            )->0,
        decreases found.len() - i,
    {
        let (field_a, field_b) = found[i];
        let ghost before = diagnostics@;
        proof {
            assert(all.skip(i as int)[0] == (field_a@, field_b@));
            assert(all.skip(i as int).skip(1) =~= all.skip(i + 1));
        }
        let ghost of_pair = pair_report_within(*db, fragments, depth, field_a@, field_b@)->0;
        match same_response_shape(db, field_a, field_b) {
            Err(diagnostic) => {
                diagnostics.push(diagnostic);
            },
            Ok(()) => {
                if *field_a.against_type == *field_b.against_type || !is_object_type(
                    db,
                    field_a.against_type,
                ) || !is_object_type(db, field_b.against_type) {
                    if field_a.field.name != field_b.field.name {
                        diagnostics.push(name_conflict_diagnostic(field_a, field_b));
                    } else {
                        match identical_arguments(field_a.field, field_b.field) {
                            Err(diagnostic) => {
                                diagnostics.push(diagnostic);
                            },
                            Ok(()) => {
                                let merged_set = fields_below_both(
                                    db,
                                    named_fragments,
                                    field_a,
                                    field_b,
                                );
                                proof {
                                    lemma_merge_report(
                                        *db,
                                        fragments,
                                        (depth - 1) as nat,
                                        fields::selected(merged_set@),
                                    );
                                }
                                let mut sub_diagnostics = merge_fields(
                                    db,
                                    named_fragments,
                                    merged_set,
                                );
                                diagnostics.append(&mut sub_diagnostics);
                            },
                        }
                    }
                }
            },
        }
        proof {
            assert(diagnostics::diagnostics_view(diagnostics@) =~= diagnostics::diagnostics_view(
                before,
            ) + of_pair);
            let others = pairs_report_within(*db, fragments, depth, all.skip(i + 1))->0;
            assert(diagnostics::diagnostics_view(before) + (of_pair + others)
                =~= diagnostics::diagnostics_view(diagnostics@) + others);
        }
        i += 1;
    }
    proof {
        assert(all.skip(i as int) =~= Seq::empty());
        assert(report =~= diagnostics::diagnostics_view(diagnostics@));
    }
    diagnostics
}

/// Check if the fields in a given selection set can be merged.
///
/// If the fields cannot be merged, returns an `Err` containing diagnostic information: the
/// conflicts of the fields with each response name, in the order in which the names first occur.
pub fn fields_in_set_can_merge(
    db: &ValidationDatabase,
    named_fragments: &NamedFragments,
    against_type: &NamedType,
    selection_set: &[Selection],
) -> (result: Result<(), Vec<ApolloDiagnostic>>)
    requires
        set_report(*db, named_fragments@, against_type@, selection_set@) is Some,
    ensures
        match result {
            Ok(()) => set_report(*db, named_fragments@, against_type@, selection_set@) == Some(
                Seq::<DiagnosticView>::empty(),
            ),
            Err(found) => found@.len() > 0 && set_report(
                *db,
                named_fragments@,
                against_type@,
                selection_set@,
            ) == Some(diagnostics::diagnostics_view(found@)),
        },
{
    let fields = operation_fields(named_fragments, against_type, selection_set);
    let found = merge_fields(db, named_fragments, fields);
    if found.is_empty() {
        assert(diagnostics::diagnostics_view(found@) =~= Seq::empty());
        Ok(())
    } else {
        Err(found)
    }
}

} // verus!
