//! What holds of fields that merge: any two of them agree, fewer of them merge too, and so do
//! fields that are repeated.
use vstd::prelude::*;

use crate::ast;
use crate::ast::{Field, FragmentDefinition, Selection};
use crate::database::ValidationDatabase;
use crate::diagnostics::DiagnosticView;
use crate::grouping;
use crate::schema;
use crate::validation::arguments;
use crate::validation::fields;
use crate::validation::fields::SelectedField;
use crate::validation::merge;
use crate::validation::pairs;
use crate::validation::shape;
use crate::validation::shape::Comparison;

verus! {

/// Any two accepted fields with the same response name agree, where the first field with that name
/// has a known type: they have the same shape, and unless they select from two different object
/// types they have the same name and the same argument values, and what they select below them
/// merges.
pub proof fn lemma_accepted_fields_agree(
    db: ValidationDatabase,
    fragments: Map<Seq<char>, FragmentDefinition>,
    selected: Seq<SelectedField>,
    g: int,
    p: int,
    q: int,
)
    requires
        merge::merge_report(db, fragments, selected) == Some(Seq::<DiagnosticView>::empty()),
        0 <= g < fields::fields_by_name(selected).len(),
        0 <= p < q < fields::fields_by_name(selected)[g].1.len(),
        merge::first_is_known(db, fields::fields_by_name(selected)[g].1),
    ensures
        ({
            let a = fields::fields_by_name(selected)[g].1[p];
            let b = fields::fields_by_name(selected)[g].1[q];
            &&& shape::shape_comparison(db, a, b) is Same
            &&& merge::may_meet(db, a, b) ==> {
                &&& a.field.name@ == b.field.name@
                &&& arguments::argument_values(a.field.arguments@) == arguments::argument_values(
                    b.field.arguments@,
                )
                &&& merge::merge_report(db, fragments, merge::merged_below(db, fragments, a, b)) == Some(
                    Seq::<DiagnosticView>::empty(),
                )
            }
        }),
{
    let a = fields::fields_by_name(selected)[g].1[p];
    let b = fields::fields_by_name(selected)[g].1[q];
    merge::lemma_merge_accepts(db, fragments, selected);
    let i = merge::lemma_is_merge_pair(db, selected, g, p, q);
    assert(merge::merge_pairs(db, selected)[i] == (a, b));
    lemma_accepted_pair(db, fragments, a, b);
}

proof fn lemma_accepted_pair(
    db: ValidationDatabase,
    fragments: Map<Seq<char>, FragmentDefinition>,
    a: SelectedField,
    b: SelectedField,
)
    requires
        merge::pair_report(db, fragments, a, b) == Some(Seq::<DiagnosticView>::empty()),
    ensures
        shape::shape_comparison(db, a, b) is Same,
        merge::may_meet(db, a, b) ==> {
            &&& a.field.name@ == b.field.name@
            &&& arguments::argument_comparison(a.field, b.field) is Same
            &&& arguments::argument_values(a.field.arguments@) == arguments::argument_values(
                b.field.arguments@,
            )
            &&& merge::merge_report(db, fragments, merge::merged_below(db, fragments, a, b)) == Some(
                Seq::<DiagnosticView>::empty(),
            )
        },
{
    let report = merge::pair_report(db, fragments, a, b);
    assert(report->0.len() == 0);
    if let Comparison::Conflict(diagnostic) = shape::shape_comparison(db, a, b) {
        assert(report->0.len() == 1);
    }
    if merge::may_meet(db, a, b) {
        if a.field.name@ != b.field.name@ {
            assert(report == merge::name_conflict(a, b));
            assert(report->0.len() == 1);
        }
        if let Comparison::Conflict(diagnostic) = arguments::argument_comparison(
            a.field,
            b.field,
        ) {
            assert(report->0.len() == 1);
        }
        arguments::lemma_same_values(a.field, b.field);
    }
}

proof fn lemma_accepted_within(
    db: ValidationDatabase,
    fragments: Map<Seq<char>, FragmentDefinition>,
    depth: nat,
    pairs: Seq<(SelectedField, SelectedField)>,
)
    ensures
        merge::pairs_report_within(db, fragments, depth, pairs) == Some(Seq::<DiagnosticView>::empty())
            <==> forall|i: int|
            0 <= i < pairs.len() ==> merge::pair_report_within(
                db,
                fragments,
                depth,
                (#[trigger] pairs[i]).0,
                pairs[i].1,
            ) == Some(Seq::<DiagnosticView>::empty()),
    decreases pairs.len(),
{
    if pairs.len() > 0 {
        let others = pairs.skip(1);
        let none = Seq::<DiagnosticView>::empty();
        let first = merge::pair_report_within(db, fragments, depth, pairs[0].0, pairs[0].1);
        let rest = merge::pairs_report_within(db, fragments, depth, others);
        lemma_accepted_within(db, fragments, depth, others);
        if merge::pairs_report_within(db, fragments, depth, pairs) == Some(none) {
            assert((first->0 + rest->0).len() == 0);
            assert(first->0 =~= none);
            assert(rest->0 =~= none);
            assert forall|i: int| 0 <= i < pairs.len() implies merge::pair_report_within(
                db,
                fragments,
                depth,
                (#[trigger] pairs[i]).0,
                pairs[i].1,
            ) == Some(none) by {
                if i > 0 {
                    assert(pairs[i] == others[i - 1]);
                }
            }
        }
        if forall|i: int|
            0 <= i < pairs.len() ==> merge::pair_report_within(
                db,
                fragments,
                depth,
                (#[trigger] pairs[i]).0,
                pairs[i].1,
            ) == Some(none) {
            assert forall|i: int| 0 <= i < others.len() implies merge::pair_report_within(
                db,
                fragments,
                depth,
                (#[trigger] others[i]).0,
                others[i].1,
            ) == Some(none) by {
                assert(others[i] == pairs[i + 1]);
            }
            assert(first == Some(none));
            assert(none + none =~= none);
        }
    }
}

/// Fields merge where all of their pairs are pairs of fields that merge.
proof fn lemma_fewer_pairs_merge(
    db: ValidationDatabase,
    fragments: Map<Seq<char>, FragmentDefinition>,
    selected: Seq<SelectedField>,
    fewer: Seq<SelectedField>,
)
    requires
        merge::merge_report(db, fragments, selected) == Some(Seq::<DiagnosticView>::empty()),
        forall|i: int|
            0 <= i < merge::merge_pairs(db, fewer).len() ==> merge::merge_pairs(db, selected).contains(
                #[trigger] merge::merge_pairs(db, fewer)[i],
            ),
    ensures
        merge::merge_report(db, fragments, fewer) == Some(Seq::<DiagnosticView>::empty()),
{
    let depth = merge::merge_depth(db, fragments, selected);
    let all = merge::merge_pairs(db, selected);
    let some = merge::merge_pairs(db, fewer);
    lemma_accepted_within(db, fragments, depth, all);
    assert forall|i: int| 0 <= i < some.len() implies merge::pair_report_within(
        db,
        fragments,
        depth,
        (#[trigger] some[i]).0,
        some[i].1,
    ) == Some(Seq::<DiagnosticView>::empty()) by {
        assert(all.contains(some[i]));
        let j = choose|j: int| 0 <= j < all.len() && all[j] == some[i];
        assert(merge::pair_report_within(db, fragments, depth, all[j].0, all[j].1) == Some(
            Seq::<DiagnosticView>::empty(),
        ));
    }
    lemma_accepted_within(db, fragments, depth, some);
    merge::lemma_merge_report(db, fragments, depth, fewer);
}

/// Dropping trailing selections of a selection set that merges leaves one that merges.
pub proof fn lemma_leading_selections_merge(
    db: ValidationDatabase,
    fragments: Map<Seq<char>, FragmentDefinition>,
    ty: Seq<char>,
    first: Seq<Selection>,
    second: Seq<Selection>,
)
    requires
        fragments.dom().finite(),
        merge::set_report(db, fragments, ty, first + second) == Some(Seq::<DiagnosticView>::empty()),
    ensures
        merge::set_report(db, fragments, ty, first) == Some(Seq::<DiagnosticView>::empty()),
{
    let key = fields::by_response_name();
    let before = fields::expand(fragments, Set::empty(), fields::against(ty, first));
    let after = fields::expand(fragments, before.seen, fields::against(ty, second));
    let all = before.fields + after.fields;
    assert(fields::against(ty, first + second) =~= fields::against(ty, first) + fields::against(
        ty,
        second,
    ));
    fields::lemma_expand_concat(
        fragments,
        Set::empty(),
        fields::against(ty, first),
        fields::against(ty, second),
    );
    let some = merge::merge_pairs(db, before.fields);
    assert forall|i: int| 0 <= i < some.len() implies merge::merge_pairs(db, all).contains(
        #[trigger] some[i],
    ) by {
        let (g, p, q) = merge::lemma_merge_pair_is(db, before.fields, i);
        let group = fields::fields_by_name(before.fields)[g];
        grouping::lemma_members_concat(before.fields, after.fields, key, group.0);
        let of_all = grouping::lemma_group_of_key(all, key, group.0);
        let members = fields::fields_by_name(all)[of_all].1;
        assert(members[0] == group.1[0] && members[p] == group.1[p] && members[q] == group.1[q]);
        let j = merge::lemma_is_merge_pair(db, all, of_all, p, q);
        assert(merge::merge_pairs(db, all)[j] == some[i]);
    }
    lemma_fewer_pairs_merge(db, fragments, all, before.fields);
}

/// Whether a field is located, selects nothing below it, and is given no argument twice.
pub open spec fn is_bare(field: Field) -> bool {
    &&& field.location is Some
    &&& field.selection_set@.len() == 0
    &&& arguments::distinct_names(field.arguments@)
}

/// Whether two fields that select nothing below them have the same shape.
spec fn same_bare_shape(db: ValidationDatabase, a: SelectedField, b: SelectedField) -> bool {
    match (
        db.schema.field_of(a.against, a.field.name@),
        db.schema.field_of(b.against, b.field.name@),
    ) {
        (Some(def_a), Some(def_b)) => {
            &&& ast::same_wrapping(def_a.ty, def_b.ty)
            &&& match (
                db.schema.type_called(ast::inner_name(def_a.ty)@),
                db.schema.type_called(ast::inner_name(def_b.ty)@),
            ) {
                (Some(ty_a), Some(ty_b)) => ty_a.is_leaf() || ty_b.is_leaf() ==> schema::leaf_view(
                    ty_a,
                ) == schema::leaf_view(ty_b),
                _ => true,
            }
        },
        _ => true,
    }
}

/// Whether two fields that select nothing below them merge.
spec fn bare_fields_merge(db: ValidationDatabase, a: SelectedField, b: SelectedField) -> bool {
    &&& same_bare_shape(db, a, b)
    &&& merge::may_meet(db, a, b) ==> a.field.name@ == b.field.name@ && arguments::argument_values(
        a.field.arguments@,
    ) == arguments::argument_values(b.field.arguments@)
}

proof fn lemma_bare_shape(db: ValidationDatabase, a: SelectedField, b: SelectedField)
    requires
        db.finite(),
        is_bare(a.field),
        is_bare(b.field),
    ensures
        !(shape::shape_comparison(db, a, b) is Undetermined),
        shape::shape_comparison(db, a, b) is Same <==> same_bare_shape(db, a, b),
{
    let fragments = db.fragments_of(a.field.location->0.file_id);
    let below_a = shape::fields_below(db, fragments, a);
    let below_b = shape::fields_below(db, fragments, b);
    assert(below_a =~= Seq::empty());
    assert(below_b =~= Seq::empty());
    assert(below_a + below_b =~= Seq::empty());
    assert(fields::fields_by_name(Seq::empty()).len() == 0);
    assert(shape::pairs_below(db, a, b).len() == 0);
    assert(shape::first_conflict_within(db, 0, shape::pairs_below(db, a, b)) is Same);
    shape::lemma_shape_comparison(db, 1, a, b);
}

proof fn lemma_bare_pair(
    db: ValidationDatabase,
    fragments: Map<Seq<char>, FragmentDefinition>,
    a: SelectedField,
    b: SelectedField,
)
    requires
        db.finite(),
        fragments.dom().finite(),
        is_bare(a.field),
        is_bare(b.field),
        bare_fields_merge(db, a, b),
    ensures
        merge::pair_report_within(db, fragments, 1, a, b) == Some(Seq::<DiagnosticView>::empty()),
        merge::pair_report(db, fragments, a, b) == Some(Seq::<DiagnosticView>::empty()),
{
    lemma_bare_shape(db, a, b);
    arguments::lemma_same_arguments(a.field, b.field);
    let below = merge::merged_below(db, fragments, a, b);
    if let (Some(ty_a), Some(ty_b)) = (merge::type_below(db, a, b), merge::type_below(db, b, a)) {
        assert((fields::against(ty_a, a.field.selection_set@) + fields::against(
            ty_b,
            b.field.selection_set@,
        )).len() == 0);
    }
    assert(below =~= Seq::empty());
    assert(fields::fields_by_name(below).len() == 0);
    assert(merge::merge_pairs(db, below).len() == 0);
    merge::lemma_no_fields_merge(db, fragments);
}

/// A field that selects nothing below it can be selected again under the same response name, with
/// the same arguments in any order.
pub proof fn lemma_field_selected_again(
    db: ValidationDatabase,
    fragments: Map<Seq<char>, FragmentDefinition>,
    a: SelectedField,
    b: SelectedField,
)
    requires
        db.finite(),
        fragments.dom().finite(),
        is_bare(a.field),
        is_bare(b.field),
        a.against == b.against,
        a.field.name@ == b.field.name@,
        arguments::argument_values(a.field.arguments@) == arguments::argument_values(
            b.field.arguments@,
        ),
    ensures
        merge::pair_report(db, fragments, a, b) == Some(Seq::<DiagnosticView>::empty()),
{
    if let Some(def) = db.schema.field_of(a.against, a.field.name@) {
        ast::lemma_same_wrapping(def.ty);
    }
    lemma_bare_pair(db, fragments, a, b);
}

/// Of two members of a group of accepted fields that select nothing below them, whichever comes
/// first, one merges with the other.
proof fn lemma_bare_members_merge(
    db: ValidationDatabase,
    fragments: Map<Seq<char>, FragmentDefinition>,
    selected: Seq<SelectedField>,
    g: int,
    p: int,
    q: int,
)
    requires
        db.finite(),
        fragments.dom().finite(),
        merge::merge_report(db, fragments, selected) == Some(Seq::<DiagnosticView>::empty()),
        forall|i: int| 0 <= i < selected.len() ==> is_bare((#[trigger] selected[i]).field),
        0 <= g < fields::fields_by_name(selected).len(),
        0 <= p < fields::fields_by_name(selected)[g].1.len(),
        0 <= q < fields::fields_by_name(selected)[g].1.len(),
        merge::first_is_known(db, fields::fields_by_name(selected)[g].1),
    ensures
        merge::pair_report_within(
            db,
            fragments,
            1,
            fields::fields_by_name(selected)[g].1[p],
            fields::fields_by_name(selected)[g].1[q],
        ) == Some(Seq::<DiagnosticView>::empty()),
{
    let a = fields::fields_by_name(selected)[g].1[p];
    let b = fields::fields_by_name(selected)[g].1[q];
    pairs::lemma_member_is_field(selected, g, p);
    pairs::lemma_member_is_field(selected, g, q);
    let i = choose|i: int| 0 <= i < selected.len() && selected[i] == a;
    let j = choose|j: int| 0 <= j < selected.len() && selected[j] == b;
    assert(is_bare(selected[i].field) && is_bare(selected[j].field));
    let def_a = db.schema.field_of(a.against, a.field.name@);
    let def_b = db.schema.field_of(b.against, b.field.name@);
    if p < q {
        lemma_accepted_fields_agree(db, fragments, selected, g, p, q);
        lemma_bare_shape(db, a, b);
    } else if p > q {
        lemma_accepted_fields_agree(db, fragments, selected, g, q, p);
        lemma_bare_shape(db, b, a);
        if def_a is Some && def_b is Some {
            ast::lemma_same_wrapping_symmetric(def_a->0.ty, def_b->0.ty);
        }
    } else if def_a is Some {
        ast::lemma_same_wrapping(def_a->0.ty);
    }
    lemma_bare_pair(db, fragments, a, b);
}

/// Repeating the selections of a selection set that merges leaves one that merges, where none of
/// its fields selects anything below it.
pub proof fn lemma_repeated_selections_merge(
    db: ValidationDatabase,
    fragments: Map<Seq<char>, FragmentDefinition>,
    ty: Seq<char>,
    selections: Seq<Selection>,
)
    requires
        db.finite(),
        fragments.dom().finite(),
        merge::set_report(db, fragments, ty, selections) == Some(Seq::<DiagnosticView>::empty()),
        forall|i: int|
            0 <= i < fields::fields_of(fragments, ty, selections).len() ==> is_bare(
                (#[trigger] fields::fields_of(fragments, ty, selections)[i]).field,
            ),
    ensures
        merge::set_report(db, fragments, ty, selections + selections) == Some(
            Seq::<DiagnosticView>::empty(),
        ),
{
    let key = fields::by_response_name();
    let work = fields::against(ty, selections);
    let once = fields::expand(fragments, Set::empty(), work);
    let again = fields::expand(fragments, once.seen, work);
    let selected = once.fields;
    let all = once.fields + again.fields;
    assert(fields::against(ty, selections + selections) =~= work + work);
    fields::lemma_expand_concat(fragments, Set::empty(), work, work);
    fields::lemma_expand_again(fragments, Set::empty(), work, once.seen);
    assert(fields::fields_of(fragments, ty, selections + selections) == all);
    let found = merge::merge_pairs(db, all);
    assert forall|i: int| 0 <= i < found.len() implies merge::pair_report_within(
        db,
        fragments,
        1,
        (#[trigger] found[i]).0,
        found[i].1,
    ) == Some(Seq::<DiagnosticView>::empty()) by {
        let (g, p, q) = merge::lemma_merge_pair_is(db, all, i);
        let (name, members) = fields::fields_by_name(all)[g];
        let p_once = lemma_repeated_member(selected, again.fields, g, p);
        let q_once = lemma_repeated_member(selected, again.fields, g, q);
        let g_once = grouping::lemma_group_of_key(selected, key, name);
        grouping::lemma_members_concat(selected, again.fields, key, name);
        assert(fields::fields_by_name(selected)[g_once].1[0] == members[0]);
        lemma_bare_members_merge(db, fragments, selected, g_once, p_once, q_once);
    }
    lemma_accepted_within(db, fragments, 1, found);
    merge::lemma_merge_report(db, fragments, 1, all);
}

/// Where only fields are repeated that are there already, every member of a group is a member of
/// the group of that name from before: its place there.
proof fn lemma_repeated_member(
    selected: Seq<SelectedField>,
    repeated: Seq<SelectedField>,
    g: int,
    p: int,
) -> (at: int)
    requires
        forall|i: int| 0 <= i < repeated.len() ==> selected.contains(#[trigger] repeated[i]),
        0 <= g < fields::fields_by_name(selected + repeated).len(),
        0 <= p < fields::fields_by_name(selected + repeated)[g].1.len(),
    ensures
        ({
            let (name, members) = fields::fields_by_name(selected + repeated)[g];
            let before = grouping::members(selected, fields::by_response_name(), name);
            0 <= at < before.len() && before[at] == members[p]
        }),
{
    let key = fields::by_response_name();
    let all = selected + repeated;
    let (name, members) = fields::fields_by_name(all)[g];
    let member = members[p];
    pairs::lemma_member_is_field(all, g, p);
    let i = choose|i: int| 0 <= i < all.len() && all[i] == member;
    if i >= selected.len() {
        assert(repeated[i - selected.len()] == member);
    } else {
        assert(selected[i] == member);
    }
    assert(selected.contains(member));
    assert(key(member) == name);
    grouping::lemma_item_is_member(selected, key, member);
    let before = grouping::members(selected, key, name);
    choose|at: int| 0 <= at < before.len() && before[at] == member
}

} // verus!
