//! Whether two fields with the same response name have the same shape in a response.
use vstd::prelude::*;

use crate::ast;
use crate::ast::{FragmentDefinition, Type};
use crate::database::ValidationDatabase;
use crate::diagnostics::{
    ApolloDiagnostic, DataView, DiagnosticData, DiagnosticView, Label, LabelView,
};
use crate::lookup;
use crate::schema;
use crate::schema::same_leaf;
use crate::validation::fields;
use crate::validation::fields::{
    group_fields_by_name, operation_fields, FieldAgainstType, SelectedField,
};
use crate::validation::pairs;
use crate::validation::pairs::field_pairs;

verus! {

/// How two fields compare.
pub enum Comparison {
    /// The comparison does not end, or it comes to a place where it needs the location of a field
    /// or an argument that has none.
    Undetermined,
    /// Nothing keeps the two from being merged.
    Same,
    /// The two cannot be merged.
    Conflict(DiagnosticView),
}

/// The conflict between two fields whose types differ.
pub open spec fn type_conflict(a: SelectedField, b: SelectedField, ty_a: Type, ty_b: Type) -> Comparison {
    match (a.field.location, b.field.location) {
        (Some(location_a), Some(location_b)) => Comparison::Conflict(
            DiagnosticView {
                location: location_b,
                data: DataView::ConflictingField {
                    field: a.field.name@,
                    original_selection: location_a,
                    redefined_selection: location_b,
                },
                labels: seq![
                    LabelView {
                        location: location_a,
                        text: "`"@ + a.field.response_key() + "` has type `"@ + ast::type_text(ty_a)
                            + "` here"@,
                    },
                    LabelView {
                        location: location_b,
                        text: "but the same field name has type `"@ + ast::type_text(ty_b) + "` here"@,
                    },
                ],
                help: None,
            },
        ),
        _ => Comparison::Undetermined,
    }
}

/// The fields that a field selects below it, on its own type.
pub open spec fn fields_below(
    db: ValidationDatabase,
    fragments: Map<Seq<char>, FragmentDefinition>,
    field: SelectedField,
) -> Seq<SelectedField> {
    let ty = db.schema.field_of(field.against, field.field.name@)->0.ty;
    fields::fields_of(fragments, ast::inner_name(ty)@, field.field.selection_set@)
}

/// The pairs of fields that two fields select below them under the same response name, with the
/// named fragments of the file of the first.
pub open spec fn pairs_below(db: ValidationDatabase, a: SelectedField, b: SelectedField) -> Seq<
    (SelectedField, SelectedField),
> {
    let fragments = db.fragments_of(a.field.location->0.file_id);
    pairs::pairs(
        fields::fields_by_name(fields_below(db, fragments, a) + fields_below(db, fragments, b)),
    )
}

/// How the shapes of two fields compare, looking at most `depth` levels below them.
///
/// A field whose type is not known conflicts with nothing. Otherwise the types of the two fields
/// must be lists and non-null at the same places. Where one of the types inside is a scalar or an
/// enum, the other must be the same; where both are composite, each two of the fields selected
/// below them under the same response name must have the same shape, of which the first conflict
/// counts.
pub open spec fn shape_within(
    db: ValidationDatabase,
    depth: nat,
    a: SelectedField,
    b: SelectedField,
) -> Comparison
    decreases depth, 0nat,
{
    match (
        db.schema.field_of(a.against, a.field.name@),
        db.schema.field_of(b.against, b.field.name@),
    ) {
        (Some(def_a), Some(def_b)) => if !ast::same_wrapping(def_a.ty, def_b.ty) {
            type_conflict(a, b, def_a.ty, def_b.ty)
        } else {
            match (
                db.schema.type_called(ast::inner_name(def_a.ty)@),
                db.schema.type_called(ast::inner_name(def_b.ty)@),
            ) {
                (Some(ty_a), Some(ty_b)) => if ty_a.is_leaf() || ty_b.is_leaf() {
                    if schema::leaf_view(ty_a) == schema::leaf_view(ty_b) {
                        Comparison::Same
                    } else {
                        type_conflict(a, b, def_a.ty, def_b.ty)
                    }
                } else if ty_a.is_composite() && ty_b.is_composite() {
                    if a.field.location is None || depth == 0 {
                        Comparison::Undetermined
                    } else {
                        first_conflict_within(db, (depth - 1) as nat, pairs_below(db, a, b))
                    }
                } else {
                    Comparison::Same
                },
                _ => Comparison::Same,
            }
        },
        _ => Comparison::Same,
    }
}

/// The comparison of the first of the pairs that does not have the same shape, looking at most
/// `depth` levels below them.
pub open spec fn first_conflict_within(
    db: ValidationDatabase,
    depth: nat,
    pairs: Seq<(SelectedField, SelectedField)>,
) -> Comparison
    decreases depth, pairs.len() + 1,
{
    if pairs.len() == 0 {
        Comparison::Same
    } else {
        match shape_within(db, depth, pairs[0].0, pairs[0].1) {
            Comparison::Same => first_conflict_within(db, depth, pairs.skip(1)),
            other => other,
        }
    }
}

/// Whether looking so many levels below two fields is enough to compare their shapes.
pub open spec fn shape_ends(db: ValidationDatabase, a: SelectedField, b: SelectedField) -> spec_fn(
    nat,
) -> bool {
    |depth: nat| !(shape_within(db, depth, a, b) is Undetermined)
}

/// How many levels below two fields it takes to compare their shapes.
pub open spec fn shape_depth(db: ValidationDatabase, a: SelectedField, b: SelectedField) -> nat {
    lookup::least(shape_ends(db, a, b))
}

/// How the shapes of two fields compare.
pub open spec fn shape_comparison(db: ValidationDatabase, a: SelectedField, b: SelectedField) -> Comparison {
    shape_within(db, shape_depth(db, a, b), a, b)
}

/// Looking further below two fields than needed does not change how they compare.
pub proof fn lemma_shape_monotone(
    db: ValidationDatabase,
    depth: nat,
    more: nat,
    a: SelectedField,
    b: SelectedField,
)
    requires
        depth <= more,
        !(shape_within(db, depth, a, b) is Undetermined),
    ensures
        shape_within(db, more, a, b) == shape_within(db, depth, a, b),
    decreases depth, 0nat,
{
    if depth > 0 && a.field.location is Some {
        let below = pairs_below(db, a, b);
        if !(first_conflict_within(db, (depth - 1) as nat, below) is Undetermined) {
            lemma_first_conflict_monotone(db, (depth - 1) as nat, (more - 1) as nat, below);
        }
    }
}

proof fn lemma_first_conflict_monotone(
    db: ValidationDatabase,
    depth: nat,
    more: nat,
    pairs: Seq<(SelectedField, SelectedField)>,
)
    requires
        depth <= more,
        !(first_conflict_within(db, depth, pairs) is Undetermined),
    ensures
        first_conflict_within(db, more, pairs) == first_conflict_within(db, depth, pairs),
    decreases depth, pairs.len() + 1,
{
    if pairs.len() > 0 {
        lemma_shape_monotone(db, depth, more, pairs[0].0, pairs[0].1);
        if shape_within(db, depth, pairs[0].0, pairs[0].1) is Same {
            lemma_first_conflict_monotone(db, depth, more, pairs.skip(1));
        }
    }
}

/// Where looking to some depth is enough, the comparison is what is seen there.
pub proof fn lemma_shape_comparison(
    db: ValidationDatabase,
    depth: nat,
    a: SelectedField,
    b: SelectedField,
)
    requires
        !(shape_within(db, depth, a, b) is Undetermined),
    ensures
        shape_comparison(db, a, b) == shape_within(db, depth, a, b),
        shape_depth(db, a, b) <= depth,
{
    let ends = shape_ends(db, a, b);
    assert(ends(depth));
    lookup::lemma_least(ends, depth);
    assert(ends(shape_depth(db, a, b)));
    lemma_shape_monotone(db, shape_depth(db, a, b), depth, a, b);
}

/// The comparison of the first of the pairs that does not have the same shape.
pub open spec fn first_conflict(
    db: ValidationDatabase,
    pairs: Seq<(SelectedField, SelectedField)>,
) -> Comparison
    decreases pairs.len(),
{
    if pairs.len() == 0 {
        Comparison::Same
    } else {
        match shape_comparison(db, pairs[0].0, pairs[0].1) {
            Comparison::Same => first_conflict(db, pairs.skip(1)),
            other => other,
        }
    }
}

proof fn lemma_first_conflict(
    db: ValidationDatabase,
    depth: nat,
    pairs: Seq<(SelectedField, SelectedField)>,
)
    requires
        !(first_conflict_within(db, depth, pairs) is Undetermined),
    ensures
        first_conflict_within(db, depth, pairs) == first_conflict(db, pairs),
    decreases pairs.len(),
{
    if pairs.len() > 0 {
        lemma_shape_comparison(db, depth, pairs[0].0, pairs[0].1);
        if shape_comparison(db, pairs[0].0, pairs[0].1) is Same {
            lemma_first_conflict(db, depth, pairs.skip(1));
        }
    }
}

/// How shapes compare, wherever the comparison is determined: lists and non-null must agree, a leaf
/// type agrees only with itself, and of composite types the shapes of the fields below must agree,
/// of which the first conflict counts.
pub proof fn lemma_shape_unfolds(db: ValidationDatabase, a: SelectedField, b: SelectedField)
    requires
        !(shape_comparison(db, a, b) is Undetermined),
    ensures
        shape_comparison(db, a, b) == match (
            db.schema.field_of(a.against, a.field.name@),
            db.schema.field_of(b.against, b.field.name@),
        ) {
            (Some(def_a), Some(def_b)) => if !ast::same_wrapping(def_a.ty, def_b.ty) {
                type_conflict(a, b, def_a.ty, def_b.ty)
            } else {
                match (
                    db.schema.type_called(ast::inner_name(def_a.ty)@),
                    db.schema.type_called(ast::inner_name(def_b.ty)@),
                ) {
                    (Some(ty_a), Some(ty_b)) => if ty_a.is_leaf() || ty_b.is_leaf() {
                        if schema::leaf_view(ty_a) == schema::leaf_view(ty_b) {
                            Comparison::Same
                        } else {
                            type_conflict(a, b, def_a.ty, def_b.ty)
                        }
                    } else if ty_a.is_composite() && ty_b.is_composite() {
                        first_conflict(db, pairs_below(db, a, b))
                    } else {
                        Comparison::Same
                    },
                    _ => Comparison::Same,
                }
            },
            _ => Comparison::Same,
        },
{
    let depth = shape_depth(db, a, b);
    if depth > 0 && a.field.location is Some {
        let below = pairs_below(db, a, b);
        if !(first_conflict_within(db, (depth - 1) as nat, below) is Undetermined) {
            lemma_first_conflict(db, (depth - 1) as nat, below);
        }
    }
}

fn type_conflict_diagnostic(
    field_a: FieldAgainstType<'_>,
    field_b: FieldAgainstType<'_>,
    ty_a: &Type,
    ty_b: &Type,
) -> (result: ApolloDiagnostic)
    requires
        field_a.field.location is Some,
        field_b.field.location is Some,
    ensures
        type_conflict(field_a@, field_b@, *ty_a, *ty_b) == Comparison::Conflict(result@),
{
    let location_a = field_a.field.location.unwrap();
    let location_b = field_b.field.location.unwrap();
    let mut here = "`".to_owned();
    here.append(field_a.field.response_name().as_str());
    here.append("` has type `");
    here.append(ty_a.text().as_str());
    here.append("` here");
    let mut there = "but the same field name has type `".to_owned();
    there.append(ty_b.text().as_str());
    there.append("` here");
    let diagnostic = ApolloDiagnostic::new(
        location_b,
        DiagnosticData::ConflictingField {
            field: field_a.field.name.clone(),
            original_selection: location_a,
            redefined_selection: location_b,
        },
    ).label(Label::new(location_a, here)).label(Label::new(location_b, there));
    assert(diagnostic@.labels =~= seq![
        LabelView { location: location_a, text: here@ },
        LabelView { location: location_b, text: there@ },
    ]);
    diagnostic
}

/// Check if two fields will output the same type.
///
/// If the two fields output different types, returns an `Err` containing diagnostic information.
/// To simply check if outputs are the same, use `.is_ok()`.
pub fn same_response_shape(
    db: &ValidationDatabase,
    field_a: FieldAgainstType<'_>,
    field_b: FieldAgainstType<'_>,
) -> (result: Result<(), ApolloDiagnostic>)
    requires
        !(shape_comparison(*db, field_a@, field_b@) is Undetermined),
    ensures
        shape_comparison(*db, field_a@, field_b@) == match result {
            Ok(()) => Comparison::Same,
            Err(diagnostic) => Comparison::Conflict(diagnostic@),
        },
    decreases shape_depth(*db, field_a@, field_b@),
{
    let ghost depth = shape_depth(*db, field_a@, field_b@);
    let def_a = match db.schema.type_field(
        field_a.against_type.as_str(),
        field_a.field.name.as_str(),
    ) {
        Some(def) => def,
        None => {
            return Ok(());
        },
    };
    let def_b = match db.schema.type_field(
        field_b.against_type.as_str(),
        field_b.field.name.as_str(),
    ) {
        Some(def) => def,
        None => {
            return Ok(());
        },
    };

    // Lists are opened on both sides at once, which leaves two named types.
    let mut type_a = &def_a.ty;
    let mut type_b = &def_b.ty;
    while !type_a.is_named() || !type_b.is_named()
        invariant
            ast::same_wrapping(*type_a, *type_b) == ast::same_wrapping(def_a.ty, def_b.ty),
            ast::inner_name(*type_a) == ast::inner_name(def_a.ty),
            ast::inner_name(*type_b) == ast::inner_name(def_b.ty),
            db.schema.field_of(field_a@.against, field_a.field.name@) == Some(*def_a),
            db.schema.field_of(field_b@.against, field_b.field.name@) == Some(*def_b),
            !(shape_comparison(*db, field_a@, field_b@) is Undetermined),
        decreases type_a,
    {
        match (type_a, type_b) {
            (Type::List(item_a), Type::List(item_b)) => {
                type_a = item_a;
                type_b = item_b;
            },
            (Type::NonNullList(item_a), Type::NonNullList(item_b)) => {
                type_a = item_a;
                type_b = item_b;
            },
            _ => {
                return Err(type_conflict_diagnostic(field_a, field_b, &def_a.ty, &def_b.ty));
            },
        }
    }
    let (name_a, name_b) = match (type_a, type_b) {
        (Type::NonNullNamed(a), Type::NonNullNamed(b)) => (a, b),
        (Type::Named(a), Type::Named(b)) => (a, b),
        _ => {
            return Err(type_conflict_diagnostic(field_a, field_b, &def_a.ty, &def_b.ty));
        },
    };

    let (ty_a, ty_b) = match (
        db.schema.types.get(name_a.as_str()),
        db.schema.types.get(name_b.as_str()),
    ) {
        (Some(ty_a), Some(ty_b)) => (ty_a, ty_b),
        _ => {
            return Ok(());
        },
    };
    if ty_a.is_leaf() || ty_b.is_leaf() {
        if ty_a.is_leaf() && ty_b.is_leaf() && same_leaf(ty_a, ty_b) {
            return Ok(());
        } else {
            return Err(type_conflict_diagnostic(field_a, field_b, &def_a.ty, &def_b.ty));
        }
    }
    if !(ty_a.is_composite() && ty_b.is_composite()) {
        return Ok(());
    }

    let named_fragments = db.ast_named_fragments(field_a.field.location.unwrap().file_id);
    let mut merged_set = operation_fields(
        named_fragments,
        name_a,
        field_a.field.selection_set.as_slice(),
    );
    let mut below_b = operation_fields(
        named_fragments,
        name_b,
        field_b.field.selection_set.as_slice(),
    );
    proof {
        assert(fields::selected(merged_set@ + below_b@) =~= fields::selected(merged_set@)
            + fields::selected(below_b@));
    }
    merged_set.append(&mut below_b);
    let groups = group_fields_by_name(merged_set);
    let found = field_pairs(&groups);
    let ghost all = pairs::pairs_view(found@);
    let ghost below = (depth - 1) as nat;
    assert(all == pairs_below(*db, field_a@, field_b@));
    assert(all.skip(0) =~= all);
    let mut i: usize = 0;
    while i < found.len()
        invariant
            i <= found.len(),
            all == pairs::pairs_view(found@),
            depth == shape_depth(*db, field_a@, field_b@),
            depth > 0,
            below == depth - 1,
            shape_comparison(*db, field_a@, field_b@) == first_conflict_within(
                *db,
                below,
                all.skip(i as int),
            ),
            !(shape_comparison(*db, field_a@, field_b@) is Undetermined),
        decreases found.len() - i,
    {
        let (subfield_a, subfield_b) = found[i];
        proof {
            assert(all.skip(i as int)[0] == (subfield_a@, subfield_b@));
            assert(all.skip(i as int).skip(1) =~= all.skip(i + 1));
            lemma_shape_comparison(*db, below, subfield_a@, subfield_b@);
        }
        same_response_shape(db, subfield_a, subfield_b)?;
        i += 1;
    }
    assert(all.skip(i as int) =~= Seq::empty());
    Ok(())
}

} // verus!
