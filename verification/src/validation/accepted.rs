//! What it means that the fields of a selection set merge, said of the fields that it leads to.
use vstd::prelude::*;

use crate::ast;
use crate::ast::{FragmentDefinition, NamedType, Selection};
use crate::database::ValidationDatabase;
use crate::diagnostics::DiagnosticView;
use crate::grouping;
use crate::validation::agree;
use crate::validation::arguments;
use crate::validation::fields;
use crate::validation::fields::SelectedField;
use crate::validation::merge;
use crate::validation::merged;
use crate::validation::pairs;
use crate::validation::reach;
use crate::validation::selection;
use crate::validation::shape;
use crate::validation::shape::Comparison;

verus! {

/// Whether the schema defines an object type of the given name.
pub open spec fn names_an_object(db: ValidationDatabase, ty: Seq<char>) -> bool {
    db.schema.types@.contains_key(ty) && db.schema.types@[ty] is Object
}

/// Whether one object could be asked for both fields: they select from the same type, or one of them
/// does not select from an object type.
pub open spec fn could_meet(db: ValidationDatabase, u: SelectedField, v: SelectedField) -> bool {
    u.against == v.against || !names_an_object(db, u.against) || !names_an_object(db, v.against)
}

/// Whether every field of a list that is shown under the given name is of a known type.
pub open spec fn all_known(
    db: ValidationDatabase,
    selected: Seq<SelectedField>,
    name: Seq<char>,
) -> bool {
    forall|i: int|
        0 <= i < selected.len() && agree::shown_as((#[trigger] selected[i]).field) == name
            ==> agree::def_of(db, selected[i]) is Some
}

/// Any two different fields that are shown under the same name in a list of fields that merges
/// agree. Their types are the same but for the name inside all lists. If one object could be asked
/// for both, they are the same field with the same argument values, and the fields below the two
/// merge. All fields with that name are of known types.
pub proof fn lemma_accepted_fields(
    db: ValidationDatabase,
    fragments: Map<Seq<char>, FragmentDefinition>,
    selected: Seq<SelectedField>,
    u: SelectedField,
    v: SelectedField,
)
    requires
        merge::merge_report(db, fragments, selected) == Some(Seq::<DiagnosticView>::empty()),
        selected.contains(u),
        selected.contains(v),
        u != v,
        agree::shown_as(u.field) == agree::shown_as(v.field),
        all_known(db, selected, agree::shown_as(u.field)),
    ensures
        agree::same_but_for_name(agree::def_of(db, u)->0, agree::def_of(db, v)->0),
        shape::shape_comparison(db, u, v) is Same || shape::shape_comparison(db, v, u) is Same,
        could_meet(db, u, v) ==> {
            &&& u.field.name@ == v.field.name@
            &&& arguments::argument_values(u.field.arguments@) == arguments::argument_values(
                v.field.arguments@,
            )
            &&& {
                ||| merge::merge_report(db, fragments, merge::merged_below(db, fragments, u, v))
                    == Some(Seq::<DiagnosticView>::empty())
                ||| merge::merge_report(db, fragments, merge::merged_below(db, fragments, v, u))
                    == Some(Seq::<DiagnosticView>::empty())
            }
        },
{
    let name = agree::shown_as(u.field);
    let (g, p, q) = agree::lemma_shown_alike_are_paired(selected, u, v);
    let members = fields::fields_by_name(selected)[g].1;
    lemma_first_known(db, selected, g, name);
    let i = choose|i: int| 0 <= i < selected.len() && selected[i] == u;
    let j = choose|j: int| 0 <= j < selected.len() && selected[j] == v;
    assert(agree::def_of(db, selected[i]) is Some);
    assert(agree::def_of(db, selected[j]) is Some);
    if p < q {
        merged::lemma_accepted_fields_agree(db, fragments, selected, g, p, q);
        agree::lemma_same_shape_same_levels(db, u, v);
    } else {
        merged::lemma_accepted_fields_agree(db, fragments, selected, g, q, p);
        agree::lemma_same_shape_same_levels(db, v, u);
    }
}

proof fn lemma_first_known(
    db: ValidationDatabase,
    selected: Seq<SelectedField>,
    g: int,
    name: Seq<char>,
)
    requires
        0 <= g < fields::fields_by_name(selected).len(),
        fields::fields_by_name(selected)[g].0 == name,
        all_known(db, selected, name),
    ensures
        merge::first_is_known(db, fields::fields_by_name(selected)[g].1),
{
    let key = fields::by_response_name();
    let members = fields::fields_by_name(selected)[g].1;
    grouping::lemma_grouped(selected, key);
    assert(members.len() > 0);
    pairs::lemma_member_is_field(selected, g, 0);
    let i = choose|i: int| 0 <= i < selected.len() && selected[i] == members[0];
    assert(agree::shown_as(selected[i].field) == name);
}

/// The fields whose merging is checked below two fields of known types are exactly those that their
/// selection sets lead to, each on the type that its field holds inside all lists.
pub proof fn lemma_merged_below(
    db: ValidationDatabase,
    fragments: Map<Seq<char>, FragmentDefinition>,
    a: SelectedField,
    b: SelectedField,
    found: SelectedField,
)
    requires
        fragments.dom().finite(),
        agree::def_of(db, a) is Some,
        agree::def_of(db, b) is Some,
    ensures
        merge::merged_below(db, fragments, a, b).contains(found) <==> agree::is_below(
            db,
            fragments,
            a,
            found,
        ) || agree::is_below(db, fragments, b, found),
{
    reach::lemma_expanded_are_reached(
        fragments,
        ast::inner_name(agree::def_of(db, a)->0.ty)@,
        a.field.selection_set@,
        ast::inner_name(agree::def_of(db, b)->0.ty)@,
        b.field.selection_set@,
        found,
    );
}

/// Where only one of two fields is of a known type, the selection sets of both are looked up on the
/// type that it holds inside all lists. Where neither is, nothing is checked below them.
pub proof fn lemma_merged_below_unknown(
    db: ValidationDatabase,
    fragments: Map<Seq<char>, FragmentDefinition>,
    a: SelectedField,
    b: SelectedField,
    found: SelectedField,
)
    requires
        fragments.dom().finite(),
    ensures
        agree::def_of(db, a) is Some && agree::def_of(db, b) is None ==> {
            let ty = ast::inner_name(agree::def_of(db, a)->0.ty)@;
            merge::merged_below(db, fragments, a, b).contains(found) <==> reach::reaches(
                fragments,
                ty,
                a.field.selection_set@,
                found,
            ) || reach::reaches(fragments, ty, b.field.selection_set@, found)
        },
        agree::def_of(db, a) is None && agree::def_of(db, b) is Some ==> {
            let ty = ast::inner_name(agree::def_of(db, b)->0.ty)@;
            merge::merged_below(db, fragments, a, b).contains(found) <==> reach::reaches(
                fragments,
                ty,
                a.field.selection_set@,
                found,
            ) || reach::reaches(fragments, ty, b.field.selection_set@, found)
        },
        agree::def_of(db, a) is None && agree::def_of(db, b) is None ==> merge::merged_below(
            db,
            fragments,
            a,
            b,
        ).len() == 0,
{
    let known = if agree::def_of(db, a) is Some {
        agree::def_of(db, a)->0
    } else {
        agree::def_of(db, b)->0
    };
    let ty = ast::inner_name(known.ty)@;
    reach::lemma_expanded_are_reached(
        fragments,
        ty,
        a.field.selection_set@,
        ty,
        b.field.selection_set@,
        found,
    );
}

/// Whether every field below two fields that is shown under the given name is of a known type.
pub open spec fn all_known_below(
    db: ValidationDatabase,
    fragments: Map<Seq<char>, FragmentDefinition>,
    a: SelectedField,
    b: SelectedField,
    name: Seq<char>,
) -> bool {
    forall|found: SelectedField|
        (agree::is_below(db, fragments, a, found) || agree::is_below(db, fragments, b, found))
            && agree::shown_as(found.field) == name ==> #[trigger] agree::def_of(db, found) is Some
}

/// The fields below two fields that one object could be asked for agree as well, where the two are
/// accepted: any two different ones that are shown under the same name are of the same type but for
/// the name inside all lists, and if one object could be asked for both they are the same field with
/// the same argument values. All fields with those names are of known types.
pub proof fn lemma_accepted_fields_below(
    db: ValidationDatabase,
    fragments: Map<Seq<char>, FragmentDefinition>,
    selected: Seq<SelectedField>,
    a: SelectedField,
    b: SelectedField,
    u: SelectedField,
    v: SelectedField,
)
    requires
        fragments.dom().finite(),
        merge::merge_report(db, fragments, selected) == Some(Seq::<DiagnosticView>::empty()),
        selected.contains(a),
        selected.contains(b),
        a != b,
        agree::shown_as(a.field) == agree::shown_as(b.field),
        all_known(db, selected, agree::shown_as(a.field)),
        could_meet(db, a, b),
        agree::is_below(db, fragments, a, u) || agree::is_below(db, fragments, b, u),
        agree::is_below(db, fragments, a, v) || agree::is_below(db, fragments, b, v),
        u != v,
        agree::shown_as(u.field) == agree::shown_as(v.field),
        all_known_below(db, fragments, a, b, agree::shown_as(u.field)),
    ensures
        agree::same_but_for_name(agree::def_of(db, u)->0, agree::def_of(db, v)->0),
        could_meet(db, u, v) ==> u.field.name@ == v.field.name@ && arguments::argument_values(
            u.field.arguments@,
        ) == arguments::argument_values(v.field.arguments@),
{
    lemma_accepted_fields(db, fragments, selected, a, b);
    let i = choose|i: int| 0 <= i < selected.len() && selected[i] == a;
    let j = choose|j: int| 0 <= j < selected.len() && selected[j] == b;
    assert(agree::def_of(db, selected[i]) is Some);
    assert(agree::def_of(db, selected[j]) is Some);
    if merge::merge_report(db, fragments, merge::merged_below(db, fragments, a, b)) == Some(
        Seq::<DiagnosticView>::empty(),
    ) {
        lemma_known_below(db, fragments, a, b, agree::shown_as(u.field));
        lemma_merged_below(db, fragments, a, b, u);
        lemma_merged_below(db, fragments, a, b, v);
        lemma_accepted_fields(db, fragments, merge::merged_below(db, fragments, a, b), u, v);
    } else {
        lemma_known_below(db, fragments, b, a, agree::shown_as(u.field));
        lemma_merged_below(db, fragments, b, a, u);
        lemma_merged_below(db, fragments, b, a, v);
        lemma_accepted_fields(db, fragments, merge::merged_below(db, fragments, b, a), u, v);
    }
}

proof fn lemma_known_below(
    db: ValidationDatabase,
    fragments: Map<Seq<char>, FragmentDefinition>,
    a: SelectedField,
    b: SelectedField,
    name: Seq<char>,
)
    requires
        fragments.dom().finite(),
        agree::def_of(db, a) is Some,
        agree::def_of(db, b) is Some,
        all_known_below(db, fragments, a, b, name) || all_known_below(db, fragments, b, a, name),
    ensures
        all_known(db, merge::merged_below(db, fragments, a, b), name),
{
    let below = merge::merged_below(db, fragments, a, b);
    assert forall|i: int|
        0 <= i < below.len() && agree::shown_as((#[trigger] below[i]).field) == name implies
        agree::def_of(db, below[i]) is Some by {
        assert(below.contains(below[i]));
        lemma_merged_below(db, fragments, a, b, below[i]);
        assert(agree::is_below(db, fragments, a, below[i]) || agree::is_below(
            db,
            fragments,
            b,
            below[i],
        ));
    }
}

/// A selection set is rejected where two fields that it leads to are shown under the same name, one
/// object could be asked for both, and two fields below them are shown under the same name, could
/// both be asked of one object, and are of different names. Whatever lists and non-null the types of
/// the fields above have makes no difference. All fields with those names are of known types.
pub proof fn lemma_other_names_below_are_rejected(
    db: ValidationDatabase,
    fragments: Map<Seq<char>, FragmentDefinition>,
    ty: Seq<char>,
    selections: Seq<Selection>,
    a: SelectedField,
    b: SelectedField,
    u: SelectedField,
    v: SelectedField,
)
    requires
        fragments.dom().finite(),
        reach::reaches(fragments, ty, selections, a),
        reach::reaches(fragments, ty, selections, b),
        a != b,
        agree::shown_as(a.field) == agree::shown_as(b.field),
        forall|found: SelectedField| #[trigger]
            reach::reaches(fragments, ty, selections, found) && agree::shown_as(found.field)
                == agree::shown_as(a.field) ==> agree::def_of(db, found) is Some,
        could_meet(db, a, b),
        agree::is_below(db, fragments, a, u),
        agree::is_below(db, fragments, b, v),
        agree::shown_as(u.field) == agree::shown_as(v.field),
        all_known_below(db, fragments, a, b, agree::shown_as(u.field)),
        could_meet(db, u, v),
        u.field.name@ != v.field.name@,
    ensures
        merge::set_report(db, fragments, ty, selections) != Some(Seq::<DiagnosticView>::empty()),
{
    let selected = fields::fields_of(fragments, ty, selections);
    if merge::set_report(db, fragments, ty, selections) == Some(Seq::<DiagnosticView>::empty()) {
        reach::lemma_fields_are_reached(fragments, ty, selections, a);
        reach::lemma_fields_are_reached(fragments, ty, selections, b);
        lemma_all_reached_known(db, fragments, ty, selections, agree::shown_as(a.field));
        lemma_accepted_fields_below(db, fragments, selected, a, b, u, v);
    }
}

proof fn lemma_all_reached_known(
    db: ValidationDatabase,
    fragments: Map<Seq<char>, FragmentDefinition>,
    ty: Seq<char>,
    selections: Seq<Selection>,
    name: Seq<char>,
)
    requires
        fragments.dom().finite(),
        forall|found: SelectedField| #[trigger]
            reach::reaches(fragments, ty, selections, found) && agree::shown_as(found.field)
                == name ==> agree::def_of(db, found) is Some,
    ensures
        all_known(db, fields::fields_of(fragments, ty, selections), name),
{
    let selected = fields::fields_of(fragments, ty, selections);
    assert forall|i: int|
        0 <= i < selected.len() && agree::shown_as((#[trigger] selected[i]).field) == name implies
        agree::def_of(db, selected[i]) is Some by {
        assert(selected.contains(selected[i]));
        reach::lemma_fields_are_reached(fragments, ty, selections, selected[i]);
    }
}

/// Any two different fields that a selection set leads to and shows under the same name agree, where
/// the set is accepted: their types are the same but for the name inside all lists, and if one
/// object could be asked for both they are the same field with the same argument values. All fields
/// with that name are of known types.
pub proof fn lemma_accepted_set(
    db: ValidationDatabase,
    fragments: Map<Seq<char>, FragmentDefinition>,
    ty: Seq<char>,
    selections: Seq<Selection>,
    u: SelectedField,
    v: SelectedField,
)
    requires
        fragments.dom().finite(),
        merge::set_report(db, fragments, ty, selections) == Some(Seq::<DiagnosticView>::empty()),
        reach::reaches(fragments, ty, selections, u),
        reach::reaches(fragments, ty, selections, v),
        u != v,
        agree::shown_as(u.field) == agree::shown_as(v.field),
        forall|found: SelectedField| #[trigger]
            reach::reaches(fragments, ty, selections, found) && agree::shown_as(found.field)
                == agree::shown_as(u.field) ==> agree::def_of(db, found) is Some,
    ensures
        agree::same_but_for_name(agree::def_of(db, u)->0, agree::def_of(db, v)->0),
        could_meet(db, u, v) ==> u.field.name@ == v.field.name@ && arguments::argument_values(
            u.field.arguments@,
        ) == arguments::argument_values(v.field.arguments@),
{
    let selected = fields::fields_of(fragments, ty, selections);
    reach::lemma_fields_are_reached(fragments, ty, selections, u);
    reach::lemma_fields_are_reached(fragments, ty, selections, v);
    lemma_all_reached_known(db, fragments, ty, selections, agree::shown_as(u.field));
    lemma_accepted_fields(db, fragments, selected, u, v);
}

/// Whether two fields, the first of which comes first, agree in all that merging asks of them.
pub open spec fn agree_in_order(
    db: ValidationDatabase,
    fragments: Map<Seq<char>, FragmentDefinition>,
    u: SelectedField,
    v: SelectedField,
) -> bool {
    &&& shape::shape_comparison(db, u, v) is Same
    &&& could_meet(db, u, v) ==> {
        &&& u.field.location is Some
        &&& v.field.location is Some
        &&& u.field.name@ == v.field.name@
        &&& arguments::distinct_names(u.field.arguments@)
        &&& arguments::argument_values(u.field.arguments@) == arguments::argument_values(
            v.field.arguments@,
        )
        &&& merge::merge_report(db, fragments, merge::merged_below(db, fragments, u, v)) == Some(
            Seq::<DiagnosticView>::empty(),
        )
    }
}

/// Fields are not rejected without a reason: where each two of them that are shown under the same
/// name agree, they merge.
pub proof fn lemma_agreeing_fields_merge(
    db: ValidationDatabase,
    fragments: Map<Seq<char>, FragmentDefinition>,
    selected: Seq<SelectedField>,
)
    requires
        merge::merge_report(db, fragments, selected) is Some,
        forall|u: SelectedField, v: SelectedField|
            selected.contains(u) && selected.contains(v) && agree::shown_as(u.field)
                == agree::shown_as(v.field) ==> #[trigger] agree_in_order(db, fragments, u, v),
    ensures
        merge::merge_report(db, fragments, selected) == Some(Seq::<DiagnosticView>::empty()),
{
    let found = merge::merge_pairs(db, selected);
    merge::lemma_merge_accepts(db, fragments, selected);
    assert forall|i: int| 0 <= i < found.len() implies merge::pair_report(
        db,
        fragments,
        (#[trigger] found[i]).0,
        found[i].1,
    ) == Some(Seq::<DiagnosticView>::empty()) by {
        let (g, p, q) = merge::lemma_merge_pair_is(db, selected, i);
        let (u, v) = found[i];
        pairs::lemma_member_is_field(selected, g, p);
        pairs::lemma_member_is_field(selected, g, q);
        assert(agree_in_order(db, fragments, u, v));
        if could_meet(db, u, v) {
            arguments::lemma_same_arguments(u.field, v.field);
        }
    }
}

proof fn lemma_part_of_report(
    db: ValidationDatabase,
    fragments: Map<Seq<char>, FragmentDefinition>,
    found: Seq<(SelectedField, SelectedField)>,
    i: int,
    diagnostic: DiagnosticView,
)
    requires
        merge::pairs_report(db, fragments, found) is Some,
        0 <= i < found.len(),
        merge::pair_report(db, fragments, found[i].0, found[i].1)->0.contains(diagnostic),
    ensures
        merge::pair_report(db, fragments, found[i].0, found[i].1) is Some,
        merge::pairs_report(db, fragments, found)->0.contains(diagnostic),
    decreases found.len(),
{
    let report = merge::pairs_report(db, fragments, found)->0;
    let first = merge::pair_report(db, fragments, found[0].0, found[0].1)->0;
    let others = merge::pairs_report(db, fragments, found.skip(1))->0;
    if i == 0 {
        let j = choose|j: int| 0 <= j < first.len() && first[j] == diagnostic;
        assert(report[j] == diagnostic);
    } else {
        assert(found.skip(1)[i - 1] == found[i]);
        lemma_part_of_report(db, fragments, found.skip(1), i - 1, diagnostic);
        let j = choose|j: int| 0 <= j < others.len() && others[j] == diagnostic;
        assert(report[first.len() + j] == diagnostic);
    }
}

/// Every conflict is reported. Of two fields that are shown under the same name, where the first
/// field with that name is of a known type: a conflict of their shapes is in the report; otherwise,
/// if one object could be asked for both, so is a conflict of their names, put at the second field,
/// then a conflict of their arguments, and then everything that is reported of the fields below
/// them.
pub proof fn lemma_conflicts_are_reported(
    db: ValidationDatabase,
    fragments: Map<Seq<char>, FragmentDefinition>,
    selected: Seq<SelectedField>,
    g: int,
    p: int,
    q: int,
)
    requires
        merge::merge_report(db, fragments, selected) is Some,
        0 <= g < fields::fields_by_name(selected).len(),
        0 <= p < q < fields::fields_by_name(selected)[g].1.len(),
        agree::def_of(db, fields::fields_by_name(selected)[g].1[0]) is Some,
    ensures
        ({
            let report = merge::merge_report(db, fragments, selected)->0;
            let u = fields::fields_by_name(selected)[g].1[p];
            let v = fields::fields_by_name(selected)[g].1[q];
            let below = merge::merge_report(
                db,
                fragments,
                merge::merged_below(db, fragments, u, v),
            );
            let same = shape::shape_comparison(db, u, v) is Same && could_meet(db, u, v);
            &&& shape::shape_comparison(db, u, v) matches Comparison::Conflict(diagnostic)
                ==> report.contains(diagnostic)
            &&& same && u.field.name@ != v.field.name@ ==> exists|diagnostic: DiagnosticView| #[trigger]
                report.contains(diagnostic) && agree::is_conflict_of(u.field, v.field, diagnostic)
                    && is_name_conflict(u, v, diagnostic)
            &&& same && u.field.name@ == v.field.name@ ==> {
                &&& arguments::argument_comparison(
                    u.field,
                    v.field,
                ) matches Comparison::Conflict(diagnostic) ==> report.contains(diagnostic)
                &&& arguments::argument_comparison(u.field, v.field) is Same ==> below is Some
                    && forall|i: int|
                    0 <= i < below->0.len() ==> report.contains(#[trigger] below->0[i])
            }
        }),
{
    let report = merge::merge_report(db, fragments, selected)->0;
    let found = merge::merge_pairs(db, selected);
    let u = fields::fields_by_name(selected)[g].1[p];
    let v = fields::fields_by_name(selected)[g].1[q];
    let i = merge::lemma_is_merge_pair(db, selected, g, p, q);
    merge::lemma_merge_unfolds(db, fragments, selected);
    lemma_determined_pair(db, fragments, found, i);
    let of_pair = merge::pair_report(db, fragments, u, v)->0;
    assert forall|j: int| 0 <= j < of_pair.len() implies report.contains(#[trigger] of_pair[j]) by {
        lemma_part_of_report(db, fragments, found, i, of_pair[j]);
    }
    if let Comparison::Conflict(diagnostic) = shape::shape_comparison(db, u, v) {
        assert(of_pair[0] == diagnostic);
    } else if could_meet(db, u, v) {
        if u.field.name@ != v.field.name@ {
            assert(report.contains(of_pair[0]));
            assert(agree::is_conflict_of(u.field, v.field, of_pair[0]));
        } else if let Comparison::Conflict(diagnostic) = arguments::argument_comparison(
            u.field,
            v.field,
        ) {
            assert(of_pair[0] == diagnostic);
        }
    }
}

/// Whether a diagnostic says that the two fields are of different names.
pub open spec fn is_name_conflict(
    u: SelectedField,
    v: SelectedField,
    diagnostic: DiagnosticView,
) -> bool {
    &&& diagnostic.data->field == v.field.name@
    &&& diagnostic.labels[0].location == u.field.location->0
    &&& diagnostic.labels[0].text == "field `"@ + agree::shown_as(u.field)
        + "` is selected from field `"@ + u.field.name@ + "` here"@
    &&& diagnostic.labels[1].location == v.field.location->0
    &&& diagnostic.labels[1].text == "but the same field `"@ + agree::shown_as(v.field)
        + "` is also selected from field `"@ + v.field.name@ + "` here"@
    &&& diagnostic.help == Some("Alias is already used for a different field"@)
}

proof fn lemma_determined_pair(
    db: ValidationDatabase,
    fragments: Map<Seq<char>, FragmentDefinition>,
    found: Seq<(SelectedField, SelectedField)>,
    i: int,
)
    requires
        merge::pairs_report(db, fragments, found) is Some,
        0 <= i < found.len(),
    ensures
        merge::pair_report(db, fragments, found[i].0, found[i].1) is Some,
    decreases found.len(),
{
    if i > 0 {
        assert(found.skip(1)[i - 1] == found[i]);
        lemma_determined_pair(db, fragments, found.skip(1), i - 1);
    }
}

/// Whether the field at a place of a list is the first that is shown under the given name.
pub open spec fn is_first_shown(
    selected: Seq<SelectedField>,
    i: int,
    name: Seq<char>,
) -> bool {
    &&& agree::shown_as(selected[i].field) == name
    &&& forall|j: int| 0 <= j < i ==> agree::shown_as((#[trigger] selected[j]).field) != name
}

proof fn lemma_report_is_from(
    db: ValidationDatabase,
    fragments: Map<Seq<char>, FragmentDefinition>,
    found: Seq<(SelectedField, SelectedField)>,
    k: int,
) -> (i: int)
    requires
        merge::pairs_report(db, fragments, found) is Some,
        0 <= k < merge::pairs_report(db, fragments, found)->0.len(),
    ensures
        0 <= i < found.len(),
        merge::pair_report(db, fragments, found[i].0, found[i].1) is Some,
        merge::pair_report(db, fragments, found[i].0, found[i].1)->0.contains(
            merge::pairs_report(db, fragments, found)->0[k],
        ),
    decreases found.len(),
{
    let first = merge::pair_report(db, fragments, found[0].0, found[0].1)->0;
    let others = merge::pairs_report(db, fragments, found.skip(1))->0;
    if k < first.len() {
        assert(merge::pairs_report(db, fragments, found)->0[k] == first[k]);
        0
    } else {
        assert(merge::pairs_report(db, fragments, found)->0[k] == others[k - first.len()]);
        let i = lemma_report_is_from(db, fragments, found.skip(1), k - first.len());
        assert(found.skip(1)[i] == found[i + 1]);
        i + 1
    }
}

/// Everything that is reported is a conflict of two fields that are shown under the same name: of
/// their shapes, or, if one object could be asked for both, of their names, of their arguments, or
/// among the fields below them. The first field that is shown under that name is of a known type.
pub proof fn lemma_reported_is_a_conflict(
    db: ValidationDatabase,
    fragments: Map<Seq<char>, FragmentDefinition>,
    selected: Seq<SelectedField>,
    k: int,
) -> (pair: (SelectedField, SelectedField))
    requires
        merge::merge_report(db, fragments, selected) is Some,
        0 <= k < merge::merge_report(db, fragments, selected)->0.len(),
    ensures
        ({
            let diagnostic = merge::merge_report(db, fragments, selected)->0[k];
            let (u, v) = pair;
            let below = merge::merge_report(
                db,
                fragments,
                merge::merged_below(db, fragments, u, v),
            );
            &&& selected.contains(u)
            &&& selected.contains(v)
            &&& agree::shown_as(u.field) == agree::shown_as(v.field)
            &&& forall|i: int|
                0 <= i < selected.len() && is_first_shown(selected, i, agree::shown_as(u.field))
                    ==> agree::def_of(db, #[trigger] selected[i]) is Some
            &&& {
                ||| shape::shape_comparison(db, u, v) == Comparison::Conflict(diagnostic)
                ||| could_meet(db, u, v) && u.field.name@ != v.field.name@
                    && agree::is_conflict_of(u.field, v.field, diagnostic)
                ||| could_meet(db, u, v) && u.field.name@ == v.field.name@
                    && arguments::argument_comparison(u.field, v.field) == Comparison::Conflict(
                    diagnostic,
                )
                ||| could_meet(db, u, v) && u.field.name@ == v.field.name@ && below is Some
                    && below->0.contains(diagnostic)
            }
        }),
{
    let found = merge::merge_pairs(db, selected);
    merge::lemma_merge_unfolds(db, fragments, selected);
    let i = lemma_report_is_from(db, fragments, found, k);
    let (g, p, q) = merge::lemma_merge_pair_is(db, selected, i);
    let (u, v) = found[i];
    pairs::lemma_member_is_field(selected, g, p);
    pairs::lemma_member_is_field(selected, g, q);
    let of_pair = merge::pair_report(db, fragments, u, v)->0;
    let diagnostic = merge::merge_report(db, fragments, selected)->0[k];
    let j = choose|j: int| 0 <= j < of_pair.len() && of_pair[j] == diagnostic;
    assert(of_pair[j] == diagnostic);
    let key = fields::by_response_name();
    let name = agree::shown_as(u.field);
    assert forall|i: int|
        0 <= i < selected.len() && is_first_shown(selected, i, name) implies agree::def_of(
        db,
        #[trigger] selected[i],
    ) is Some by {
        assert forall|l: int| 0 <= l < i implies key(#[trigger] selected[l]) != name by {
            assert(agree::shown_as(selected[l].field) != name);
        }
        grouping::lemma_first_member(selected, key, name, i);
    }
    (u, v)
}

proof fn lemma_shape_conflict_data(
    db: ValidationDatabase,
    depth: nat,
    a: SelectedField,
    b: SelectedField,
)
    ensures
        shape::shape_within(db, depth, a, b) matches Comparison::Conflict(diagnostic)
            ==> diagnostic.data is ConflictingField,
    decreases depth, 0nat,
{
    if depth > 0 {
        lemma_first_conflict_data(db, (depth - 1) as nat, shape::pairs_below(db, a, b));
    }
}

proof fn lemma_first_conflict_data(
    db: ValidationDatabase,
    depth: nat,
    found: Seq<(SelectedField, SelectedField)>,
)
    ensures
        shape::first_conflict_within(db, depth, found) matches Comparison::Conflict(diagnostic)
            ==> diagnostic.data is ConflictingField,
    decreases depth, found.len() + 1,
{
    if found.len() > 0 {
        lemma_shape_conflict_data(db, depth, found[0].0, found[0].1);
        lemma_first_conflict_data(db, depth, found.skip(1));
    }
}

proof fn lemma_pairs_report_data(
    db: ValidationDatabase,
    fragments: Map<Seq<char>, FragmentDefinition>,
    depth: nat,
    found: Seq<(SelectedField, SelectedField)>,
)
    ensures
        merge::pairs_report_within(db, fragments, depth, found) matches Some(report)
            ==> forall|k: int|
            0 <= k < report.len() ==> (#[trigger] report[k]).data is ConflictingField,
    decreases depth, found.len(),
{
    if found.len() > 0 {
        let (a, b) = found[0];
        let first = merge::pair_report_within(db, fragments, depth, a, b);
        let others = merge::pairs_report_within(db, fragments, depth, found.skip(1));
        lemma_shape_conflict_data(db, shape::shape_depth(db, a, b), a, b);
        if depth > 0 {
            lemma_pairs_report_data(
                db,
                fragments,
                (depth - 1) as nat,
                merge::merge_pairs(db, merge::merged_below(db, fragments, a, b)),
            );
        }
        lemma_pairs_report_data(db, fragments, depth, found.skip(1));
        if first is Some && others is Some {
            let report = first->0 + others->0;
            assert forall|k: int| 0 <= k < report.len() implies (
            #[trigger] report[k]).data is ConflictingField by {
                if k < first->0.len() {
                    assert(report[k] == first->0[k]);
                } else {
                    assert(report[k] == others->0[k - first->0.len()]);
                }
            }
        }
    }
}

/// Everything that is reported of merging is a conflicting field.
pub proof fn lemma_reported_are_conflicting_fields(
    db: ValidationDatabase,
    fragments: Map<Seq<char>, FragmentDefinition>,
    selected: Seq<SelectedField>,
)
    ensures
        merge::merge_report(db, fragments, selected) matches Some(report) ==> forall|k: int|
            0 <= k < report.len() ==> (#[trigger] report[k]).data is ConflictingField,
{
    lemma_pairs_report_data(
        db,
        fragments,
        merge::merge_depth(db, fragments, selected),
        merge::merge_pairs(db, selected),
    );
}

/// A selection set on a known type whose first selection is located, and whose fields do not merge,
/// is reported: what is reported of it begins with a conflicting field.
pub proof fn lemma_rejected_set_is_reported(
    db: ValidationDatabase,
    against_type: &NamedType,
    selections: Seq<Selection>,
)
    requires
        selections.len() > 0,
        selection::written_at(selections[0]) is Some,
        ({
            let fragments = db.fragments_of(selection::written_at(selections[0])->0.file_id);
            let report = merge::set_report(db, fragments, against_type@, selections);
            report is Some && report->0.len() > 0
        }),
    ensures
        selection::merge_part(db, Some(against_type), selections) is Some,
        selection::merge_part(db, Some(against_type), selections)->0.len() > 0,
        selection::merge_part(db, Some(against_type), selections)->0[0].data is ConflictingField,
{
    let fragments = db.fragments_of(selection::written_at(selections[0])->0.file_id);
    selection::lemma_merging_is_validated(db, Some(against_type), selections);
    lemma_reported_are_conflicting_fields(
        db,
        fragments,
        fields::fields_of(fragments, against_type@, selections),
    );
}

} // verus!
