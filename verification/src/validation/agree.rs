//! What it means that fields have the same shape, said of their types and of the fields that they
//! lead to.
use vstd::prelude::*;

use crate::ast;
use crate::ast::{Field, FieldDefinition, FragmentDefinition, NamedType};
use crate::database::ValidationDatabase;
use crate::diagnostics::DiagnosticView;
use crate::grouping;
use crate::schema;
use crate::schema::ExtendedType;
use crate::validation::fields;
use crate::validation::fields::SelectedField;
use crate::validation::pairs;
use crate::validation::reach;
use crate::validation::shape;
use crate::validation::shape::Comparison;

verus! {

/// The name that a field is shown under: its alias, or its name without one.
pub open spec fn shown_as(field: Field) -> Seq<char> {
    if field.alias is Some {
        field.alias->0@
    } else {
        field.name@
    }
}

/// The definition of a field in the type it selects from.
pub open spec fn def_of(db: ValidationDatabase, field: SelectedField) -> Option<FieldDefinition> {
    db.schema.field_of(field.against, field.field.name@)
}

/// Whether two types are the same but for the name inside all lists.
pub open spec fn same_but_for_name(a: FieldDefinition, b: FieldDefinition) -> bool {
    forall|name: NamedType| #[trigger] ast::with_inner(a.ty, name) == ast::with_inner(b.ty, name)
}

/// Fields of known types that have the same shape are of the same type but for the name inside all
/// lists: lists, and non-null, at the same levels.
pub proof fn lemma_same_shape_same_levels(
    db: ValidationDatabase,
    a: SelectedField,
    b: SelectedField,
)
    requires
        shape::shape_comparison(db, a, b) is Same,
        def_of(db, a) is Some,
        def_of(db, b) is Some,
    ensures
        same_but_for_name(def_of(db, a)->0, def_of(db, b)->0),
        def_of(db, a)->0.ty is Named <==> def_of(db, b)->0.ty is Named,
        def_of(db, a)->0.ty is NonNullNamed <==> def_of(db, b)->0.ty is NonNullNamed,
        def_of(db, a)->0.ty is List <==> def_of(db, b)->0.ty is List,
        def_of(db, a)->0.ty is NonNullList <==> def_of(db, b)->0.ty is NonNullList,
{
    let ty_a = def_of(db, a)->0.ty;
    let ty_b = def_of(db, b)->0.ty;
    shape::lemma_shape_unfolds(db, a, b);
    assert(ast::same_wrapping(ty_a, ty_b)) by {
        if !ast::same_wrapping(ty_a, ty_b) {
            assert(shape::shape_comparison(db, a, b) == shape::type_conflict(a, b, ty_a, ty_b));
        }
    }
    assert forall|name: NamedType| #[trigger]
        ast::with_inner(ty_a, name) == ast::with_inner(ty_b, name) by {
        ast::lemma_same_but_for_name(ty_a, ty_b, name);
    }
    ast::lemma_same_levels(ty_a, ty_b);
}

/// Whether a diagnostic says that the two fields conflict: it is put at the second, and names the
/// first as the original.
pub open spec fn is_conflict_of(a: Field, b: Field, diagnostic: DiagnosticView) -> bool {
    &&& a.location is Some
    &&& b.location is Some
    &&& diagnostic.location == b.location->0
    &&& diagnostic.data is ConflictingField
    &&& diagnostic.data->original_selection == a.location->0
    &&& diagnostic.data->redefined_selection == b.location->0
    &&& diagnostic.labels.len() == 2
}

/// Located fields whose types differ in more than the name inside all lists conflict, and the
/// diagnostic puts its labels at the two fields, with their types in them.
pub proof fn lemma_other_levels_conflict(
    db: ValidationDatabase,
    a: SelectedField,
    b: SelectedField,
    name: NamedType,
)
    requires
        a.field.location is Some,
        b.field.location is Some,
        def_of(db, a) is Some,
        def_of(db, b) is Some,
        ast::with_inner(def_of(db, a)->0.ty, name) != ast::with_inner(def_of(db, b)->0.ty, name),
    ensures
        shape::shape_comparison(db, a, b) is Conflict,
        is_conflict_of(a.field, b.field, shape::shape_comparison(db, a, b)->Conflict_0),
        type_labels(db, a, b, shape::shape_comparison(db, a, b)->Conflict_0),
{
    ast::lemma_same_but_for_name(def_of(db, a)->0.ty, def_of(db, b)->0.ty, name);
    assert(shape::shape_within(db, 0, a, b) is Conflict);
    shape::lemma_shape_comparison(db, 0, a, b);
}

/// Whether the labels of a diagnostic stand at the two fields and say their types.
pub open spec fn type_labels(
    db: ValidationDatabase,
    a: SelectedField,
    b: SelectedField,
    diagnostic: DiagnosticView,
) -> bool {
    &&& diagnostic.labels[0].location == a.field.location->0
    &&& diagnostic.labels[0].text == "`"@ + shown_as(a.field) + "` has type `"@ + ast::type_text(
        def_of(db, a)->0.ty,
    ) + "` here"@
    &&& diagnostic.labels[1].location == b.field.location->0
    &&& diagnostic.labels[1].text == "but the same field name has type `"@ + ast::type_text(
        def_of(db, b)->0.ty,
    ) + "` here"@
    &&& diagnostic.data->field == a.field.name@
    &&& diagnostic.help is None
}

/// The type that a field of known type holds inside all lists, where the schema defines it.
pub open spec fn type_inside(db: ValidationDatabase, field: SelectedField) -> Option<ExtendedType> {
    let name = ast::inner_name(def_of(db, field)->0.ty)@;
    if db.schema.types@.contains_key(name) {
        Some(db.schema.types@[name])
    } else {
        None
    }
}

/// Fields of known types that have the same shape hold the same scalar or enum type inside all
/// lists, wherever one of them holds such a type.
pub proof fn lemma_same_shape_same_leaf(
    db: ValidationDatabase,
    a: SelectedField,
    b: SelectedField,
)
    requires
        shape::shape_comparison(db, a, b) is Same,
        def_of(db, a) is Some,
        def_of(db, b) is Some,
        type_inside(db, a) is Some,
        type_inside(db, b) is Some,
    ensures
        type_inside(db, a)->0 is Scalar <==> type_inside(db, b)->0 is Scalar,
        type_inside(db, a)->0 is Scalar ==> type_inside(db, a)->0->Scalar_0.name@ == type_inside(
            db,
            b,
        )->0->Scalar_0.name@,
        type_inside(db, a)->0 is Enum <==> type_inside(db, b)->0 is Enum,
        type_inside(db, a)->0 is Enum ==> type_inside(db, a)->0->Enum_0.name@ == type_inside(
            db,
            b,
        )->0->Enum_0.name@,
{
    let ty_a = type_inside(db, a)->0;
    let ty_b = type_inside(db, b)->0;
    lemma_same_shape_same_levels(db, a, b);
    shape::lemma_shape_unfolds(db, a, b);
    schema::lemma_kinds(ty_a);
    schema::lemma_kinds(ty_b);
    if ty_a.is_leaf() || ty_b.is_leaf() {
        assert(schema::leaf_view(ty_a) == schema::leaf_view(ty_b));
        schema::lemma_same_leaf(ty_a, ty_b);
        schema::lemma_same_leaf(ty_b, ty_a);
    }
}

/// Located fields of which one holds a scalar or an enum type inside all lists, and the other a type
/// of another kind or name, conflict.
pub proof fn lemma_other_leaf_conflicts(
    db: ValidationDatabase,
    a: SelectedField,
    b: SelectedField,
)
    requires
        a.field.location is Some,
        b.field.location is Some,
        def_of(db, a) is Some,
        def_of(db, b) is Some,
        type_inside(db, a) is Some,
        type_inside(db, b) is Some,
        ({
            let ty_a = type_inside(db, a)->0;
            let ty_b = type_inside(db, b)->0;
            ||| ty_a is Scalar && !(ty_b is Scalar && ty_b->Scalar_0.name@ == ty_a->Scalar_0.name@)
            ||| ty_b is Scalar && !(ty_a is Scalar)
            ||| ty_a is Enum && !(ty_b is Enum && ty_b->Enum_0.name@ == ty_a->Enum_0.name@)
            ||| ty_b is Enum && !(ty_a is Enum)
        }),
    ensures
        shape::shape_comparison(db, a, b) is Conflict,
        is_conflict_of(a.field, b.field, shape::shape_comparison(db, a, b)->Conflict_0),
        type_labels(db, a, b, shape::shape_comparison(db, a, b)->Conflict_0),
{
    let ty_a = type_inside(db, a)->0;
    let ty_b = type_inside(db, b)->0;
    schema::lemma_kinds(ty_a);
    schema::lemma_kinds(ty_b);
    if schema::leaf_view(ty_a) == schema::leaf_view(ty_b) {
        if schema::leaf_view(ty_a) is Some {
            schema::lemma_same_leaf(ty_a, ty_b);
        }
    }
    assert(shape::shape_within(db, 0, a, b) is Conflict);
    shape::lemma_shape_comparison(db, 0, a, b);
}

/// Whether fields are selected from values of the type.
pub open spec fn has_fields(ty: ExtendedType) -> bool {
    ty is Object || ty is Interface || ty is Union
}

/// Whether a field is selected below a field of known type, with the given named fragments.
pub open spec fn is_below(
    db: ValidationDatabase,
    fragments: Map<Seq<char>, FragmentDefinition>,
    field: SelectedField,
    found: SelectedField,
) -> bool {
    reach::reaches(
        fragments,
        ast::inner_name(def_of(db, field)->0.ty)@,
        field.field.selection_set@,
        found,
    )
}

proof fn lemma_fields_below(
    db: ValidationDatabase,
    fragments: Map<Seq<char>, FragmentDefinition>,
    field: SelectedField,
    found: SelectedField,
)
    requires
        fragments.dom().finite(),
    ensures
        shape::fields_below(db, fragments, field).contains(found) <==> is_below(
            db,
            fragments,
            field,
            found,
        ),
{
    reach::lemma_fields_are_reached(
        fragments,
        ast::inner_name(def_of(db, field)->0.ty)@,
        field.field.selection_set@,
        found,
    );
}

/// Two different fields of a list that are shown under the same name are a pair, in one order or
/// the other.
pub proof fn lemma_shown_alike_are_paired(
    selected: Seq<SelectedField>,
    u: SelectedField,
    v: SelectedField,
) -> (at: (int, int, int))
    requires
        selected.contains(u),
        selected.contains(v),
        u != v,
        shown_as(u.field) == shown_as(v.field),
    ensures
        ({
            let groups = fields::fields_by_name(selected);
            &&& 0 <= at.0 < groups.len()
            &&& 0 <= at.1 < groups[at.0].1.len()
            &&& 0 <= at.2 < groups[at.0].1.len()
            &&& at.1 != at.2
            &&& groups[at.0].1[at.1] == u
            &&& groups[at.0].1[at.2] == v
            &&& groups[at.0].0 == shown_as(u.field)
        }),
{
    let key = fields::by_response_name();
    let name = shown_as(u.field);
    assert(key(u) == name);
    assert(key(v) == name);
    let members = grouping::members(selected, key, name);
    grouping::lemma_item_is_member(selected, key, u);
    grouping::lemma_item_is_member(selected, key, v);
    let p = choose|p: int| 0 <= p < members.len() && members[p] == u;
    let q = choose|q: int| 0 <= q < members.len() && members[q] == v;
    let g = grouping::lemma_group_of_key(selected, key, name);
    (g, p, q)
}

proof fn lemma_no_conflict_among(
    db: ValidationDatabase,
    found: Seq<(SelectedField, SelectedField)>,
    i: int,
)
    requires
        shape::first_conflict(db, found) is Same,
        0 <= i < found.len(),
    ensures
        shape::shape_comparison(db, found[i].0, found[i].1) is Same,
    decreases found.len(),
{
    if i > 0 {
        assert(found.skip(1)[i - 1] == found[i]);
        lemma_no_conflict_among(db, found.skip(1), i - 1);
    }
}

/// Any two different fields that are shown under the same name below two fields of composite types
/// that have the same shape have the same shape themselves, in one order or the other: fields below
/// the first, below the second, or one below each.
pub proof fn lemma_same_shape_below(
    db: ValidationDatabase,
    a: SelectedField,
    b: SelectedField,
    u: SelectedField,
    v: SelectedField,
)
    requires
        db.finite(),
        shape::shape_comparison(db, a, b) is Same,
        a.field.location is Some,
        def_of(db, a) is Some,
        def_of(db, b) is Some,
        type_inside(db, a) is Some,
        type_inside(db, b) is Some,
        has_fields(type_inside(db, a)->0),
        has_fields(type_inside(db, b)->0),
        ({
            let fragments = db.fragments_of(a.field.location->0.file_id);
            &&& is_below(db, fragments, a, u) || is_below(db, fragments, b, u)
            &&& is_below(db, fragments, a, v) || is_below(db, fragments, b, v)
        }),
        u != v,
        shown_as(u.field) == shown_as(v.field),
    ensures
        shape::shape_comparison(db, u, v) is Same || shape::shape_comparison(db, v, u) is Same,
        def_of(db, u) is Some && def_of(db, v) is Some ==> same_but_for_name(
            def_of(db, u)->0,
            def_of(db, v)->0,
        ),
{
    let fragments = db.fragments_of(a.field.location->0.file_id);
    let below_a = shape::fields_below(db, fragments, a);
    let below_b = shape::fields_below(db, fragments, b);
    let all = below_a + below_b;
    lemma_in_both(db, fragments, a, b, u);
    lemma_in_both(db, fragments, a, b, v);
    lemma_same_shape_same_levels(db, a, b);
    shape::lemma_shape_unfolds(db, a, b);
    let (g, p, q) = lemma_shown_alike_are_paired(all, u, v);
    let groups = fields::fields_by_name(all);
    if p < q {
        let i = pairs::lemma_is_pair(groups, g, p, q);
        lemma_no_conflict_among(db, shape::pairs_below(db, a, b), i);
        if def_of(db, u) is Some && def_of(db, v) is Some {
            lemma_same_shape_same_levels(db, u, v);
        }
    } else {
        let i = pairs::lemma_is_pair(groups, g, q, p);
        lemma_no_conflict_among(db, shape::pairs_below(db, a, b), i);
        if def_of(db, u) is Some && def_of(db, v) is Some {
            lemma_same_shape_same_levels(db, v, u);
        }
    }
}

proof fn lemma_in_both(
    db: ValidationDatabase,
    fragments: Map<Seq<char>, FragmentDefinition>,
    a: SelectedField,
    b: SelectedField,
    found: SelectedField,
)
    requires
        fragments.dom().finite(),
    ensures
        (shape::fields_below(db, fragments, a) + shape::fields_below(db, fragments, b)).contains(
            found,
        ) <==> is_below(db, fragments, a, found) || is_below(db, fragments, b, found),
{
    let below_a = shape::fields_below(db, fragments, a);
    let below_b = shape::fields_below(db, fragments, b);
    let all = below_a + below_b;
    lemma_fields_below(db, fragments, a, found);
    lemma_fields_below(db, fragments, b, found);
    if below_a.contains(found) {
        let i = choose|i: int| 0 <= i < below_a.len() && below_a[i] == found;
        assert(all[i] == found);
    }
    if below_b.contains(found) {
        let i = choose|i: int| 0 <= i < below_b.len() && below_b[i] == found;
        assert(all[below_a.len() + i] == found);
    }
    if all.contains(found) {
        let i = choose|i: int| 0 <= i < all.len() && all[i] == found;
        if i < below_a.len() {
            assert(below_a[i] == found);
        } else {
            assert(below_b[i - below_a.len()] == found);
        }
    }
}

proof fn lemma_first_conflict_is(
    db: ValidationDatabase,
    found: Seq<(SelectedField, SelectedField)>,
) -> (i: int)
    requires
        shape::first_conflict(db, found) is Conflict,
    ensures
        0 <= i < found.len(),
        shape::shape_comparison(db, found[i].0, found[i].1) == shape::first_conflict(db, found),
    decreases found.len(),
{
    if shape::shape_comparison(db, found[0].0, found[0].1) is Same {
        let i = lemma_first_conflict_is(db, found.skip(1));
        assert(found.skip(1)[i] == found[i + 1]);
        i + 1
    } else {
        0
    }
}

/// Whether two fields that are shown under the same name below two fields conflict, and how.
pub open spec fn conflict_below(
    db: ValidationDatabase,
    a: SelectedField,
    b: SelectedField,
    u: SelectedField,
    v: SelectedField,
    diagnostic: DiagnosticView,
) -> bool {
    let fragments = db.fragments_of(a.field.location->0.file_id);
    &&& is_below(db, fragments, a, u) || is_below(db, fragments, b, u)
    &&& is_below(db, fragments, a, v) || is_below(db, fragments, b, v)
    &&& shown_as(u.field) == shown_as(v.field)
    &&& shape::shape_comparison(db, u, v) == Comparison::Conflict(diagnostic)
}

/// Shapes conflict only for a reason. Both fields are of known types. Either the types differ in
/// more than the name inside all lists; or one of the types inside is a scalar or an enum and the
/// other is not the same; or both are composite, and two fields that are shown under the same name
/// below them conflict, which is what is reported.
pub proof fn lemma_conflict_has_a_reason(
    db: ValidationDatabase,
    a: SelectedField,
    b: SelectedField,
    name: NamedType,
)
    requires
        db.finite(),
        shape::shape_comparison(db, a, b) is Conflict,
    ensures
        def_of(db, a) is Some,
        def_of(db, b) is Some,
        ({
            ||| ast::with_inner(def_of(db, a)->0.ty, name) != ast::with_inner(
                def_of(db, b)->0.ty,
                name,
            )
            ||| type_inside(db, a) is Some && type_inside(db, b) is Some && (!has_fields(
                type_inside(db, a)->0,
            ) || !has_fields(type_inside(db, b)->0)) && schema::leaf_view(type_inside(db, a)->0)
                != schema::leaf_view(type_inside(db, b)->0)
            ||| type_inside(db, a) is Some && type_inside(db, b) is Some && has_fields(
                type_inside(db, a)->0,
            ) && has_fields(type_inside(db, b)->0) && exists|u: SelectedField, v: SelectedField|
                #[trigger]
                conflict_below(
                    db,
                    a,
                    b,
                    u,
                    v,
                    shape::shape_comparison(db, a, b)->Conflict_0,
                )
        }),
{
    shape::lemma_shape_unfolds(db, a, b);
    let def_a = def_of(db, a)->0;
    let def_b = def_of(db, b)->0;
    ast::lemma_same_but_for_name(def_a.ty, def_b.ty, name);
    if ast::same_wrapping(def_a.ty, def_b.ty) {
        let ty_a = type_inside(db, a)->0;
        let ty_b = type_inside(db, b)->0;
        schema::lemma_kinds(ty_a);
        schema::lemma_kinds(ty_b);
        if has_fields(ty_a) && has_fields(ty_b) {
            let fragments = db.fragments_of(a.field.location->0.file_id);
            let all = shape::fields_below(db, fragments, a) + shape::fields_below(
                db,
                fragments,
                b,
            );
            let found = shape::pairs_below(db, a, b);
            let i = lemma_first_conflict_is(db, found);
            let (g, p, q) = pairs::lemma_pair_is(fields::fields_by_name(all), i);
            let (u, v) = found[i];
            pairs::lemma_member_is_field(all, g, p);
            pairs::lemma_member_is_field(all, g, q);
            lemma_in_both(db, fragments, a, b, u);
            lemma_in_both(db, fragments, a, b, v);
            assert(conflict_below(
                db,
                a,
                b,
                u,
                v,
                shape::shape_comparison(db, a, b)->Conflict_0,
            ));
        }
    }
}

/// Nothing conflicts with a field whose type is not known, and no location is needed to see that.
pub proof fn lemma_unknown_agrees(db: ValidationDatabase, a: SelectedField, b: SelectedField)
    requires
        def_of(db, a) is None || def_of(db, b) is None,
    ensures
        shape::shape_comparison(db, a, b) is Same,
{
    assert(shape::shape_within(db, 0, a, b) is Same);
    shape::lemma_shape_comparison(db, 0, a, b);
}

/// Fields whose types are the same but for the name inside all lists have the same shape where the
/// types inside are the same scalar or enum, or where one of them is not defined. No location is
/// needed to see that.
pub proof fn lemma_same_leaf_agrees(
    db: ValidationDatabase,
    a: SelectedField,
    b: SelectedField,
    name: NamedType,
)
    requires
        def_of(db, a) is Some,
        def_of(db, b) is Some,
        ast::with_inner(def_of(db, a)->0.ty, name) == ast::with_inner(def_of(db, b)->0.ty, name),
        ({
            ||| type_inside(db, a) is None
            ||| type_inside(db, b) is None
            ||| schema::leaf_view(type_inside(db, a)->0) is Some && schema::leaf_view(
                type_inside(db, a)->0,
            ) == schema::leaf_view(type_inside(db, b)->0)
        }),
    ensures
        shape::shape_comparison(db, a, b) is Same,
{
    ast::lemma_same_but_for_name(def_of(db, a)->0.ty, def_of(db, b)->0.ty, name);
    assert(shape::shape_within(db, 0, a, b) is Same);
    shape::lemma_shape_comparison(db, 0, a, b);
}

/// Of fields of composite types that are the same but for the name inside all lists, the shapes are
/// the same where each two fields that are shown under the same name below them have the same shape,
/// seen to a common depth. Of the two only the first needs a location.
pub proof fn lemma_composite_agrees(
    db: ValidationDatabase,
    a: SelectedField,
    b: SelectedField,
    name: NamedType,
    depth: nat,
)
    requires
        db.finite(),
        a.field.location is Some,
        def_of(db, a) is Some,
        def_of(db, b) is Some,
        ast::with_inner(def_of(db, a)->0.ty, name) == ast::with_inner(def_of(db, b)->0.ty, name),
        type_inside(db, a) is Some,
        type_inside(db, b) is Some,
        has_fields(type_inside(db, a)->0),
        has_fields(type_inside(db, b)->0),
        ({
            let fragments = db.fragments_of(a.field.location->0.file_id);
            forall|u: SelectedField, v: SelectedField|
                (is_below(db, fragments, a, u) || is_below(db, fragments, b, u)) && (is_below(
                    db,
                    fragments,
                    a,
                    v,
                ) || is_below(db, fragments, b, v)) && shown_as(u.field) == shown_as(v.field)
                    ==> #[trigger] shape::shape_within(db, depth, u, v) is Same
        }),
    ensures
        shape::shape_comparison(db, a, b) is Same,
{
    let fragments = db.fragments_of(a.field.location->0.file_id);
    let all = shape::fields_below(db, fragments, a) + shape::fields_below(db, fragments, b);
    let found = shape::pairs_below(db, a, b);
    schema::lemma_kinds(type_inside(db, a)->0);
    schema::lemma_kinds(type_inside(db, b)->0);
    ast::lemma_same_but_for_name(def_of(db, a)->0.ty, def_of(db, b)->0.ty, name);
    assert forall|i: int| 0 <= i < found.len() implies shape::shape_within(
        db,
        depth,
        (#[trigger] found[i]).0,
        found[i].1,
    ) is Same by {
        let (g, p, q) = pairs::lemma_pair_is(fields::fields_by_name(all), i);
        let (u, v) = found[i];
        pairs::lemma_member_is_field(all, g, p);
        pairs::lemma_member_is_field(all, g, q);
        lemma_in_both(db, fragments, a, b, u);
        lemma_in_both(db, fragments, a, b, v);
    }
    lemma_none_conflicts(db, depth, found);
    assert(shape::shape_within(db, depth + 1, a, b) is Same);
    shape::lemma_shape_comparison(db, depth + 1, a, b);
}

proof fn lemma_none_conflicts(
    db: ValidationDatabase,
    depth: nat,
    found: Seq<(SelectedField, SelectedField)>,
)
    requires
        forall|i: int|
            0 <= i < found.len() ==> shape::shape_within(
                db,
                depth,
                (#[trigger] found[i]).0,
                found[i].1,
            ) is Same,
    ensures
        shape::first_conflict_within(db, depth, found) is Same,
    decreases found.len(),
{
    if found.len() > 0 {
        assert(shape::shape_within(db, depth, found[0].0, found[0].1) is Same);
        assert forall|i: int| 0 <= i < found.skip(1).len() implies shape::shape_within(
            db,
            depth,
            (#[trigger] found.skip(1)[i]).0,
            found.skip(1)[i].1,
        ) is Same by {
            assert(found.skip(1)[i] == found[i + 1]);
        }
        lemma_none_conflicts(db, depth, found.skip(1));
    }
}

} // verus!
