//! Validation of a selection set as a whole: its fields can be merged, and each of its selections
//! follows the rules for its kind.
use vstd::prelude::*;

use crate::ast::{Field, FragmentSpread, InlineFragment, NamedType, NodeLocation, Selection};
use crate::database::{OperationValidationConfig, ValidationDatabase};
use crate::diagnostics;
use crate::diagnostics::{ApolloDiagnostic, DiagnosticView};
use crate::validation::fields;
use crate::validation::merge;
use crate::validation::merge::fields_in_set_can_merge;

verus! {

/// The rules that a single selection has to follow. Nothing is known here of what they report.
pub trait SelectionRules {
    /// What is wrong with a field.
    fn validate_field(
        &self,
        db: &ValidationDatabase,
        against_type: Option<&NamedType>,
        field: &Field,
        context: &OperationValidationConfig,
    ) -> Vec<ApolloDiagnostic>;

    /// What is wrong with the use of a named fragment.
    fn validate_fragment_spread(
        &self,
        db: &ValidationDatabase,
        against_type: Option<&NamedType>,
        spread: &FragmentSpread,
        context: &OperationValidationConfig,
    ) -> Vec<ApolloDiagnostic>;

    /// What is wrong with an inline fragment.
    fn validate_inline_fragment(
        &self,
        db: &ValidationDatabase,
        against_type: Option<&NamedType>,
        inline: &InlineFragment,
        context: &OperationValidationConfig,
    ) -> Vec<ApolloDiagnostic>;
}

/// Whether `found` is something that the rule for the kind of `selection` reports of it.
pub open spec fn rule_reports<R: SelectionRules>(
    rules: &R,
    db: &ValidationDatabase,
    against_type: Option<&NamedType>,
    selection: Selection,
    context: &OperationValidationConfig,
    found: Vec<ApolloDiagnostic>,
) -> bool {
    match selection {
        Selection::Field(field) => call_ensures(
            R::validate_field,
            (rules, db, against_type, &field, context),
            found,
        ),
        Selection::FragmentSpread(spread) => call_ensures(
            R::validate_fragment_spread,
            (rules, db, against_type, &spread, context),
            found,
        ),
        Selection::InlineFragment(inline) => call_ensures(
            R::validate_inline_fragment,
            (rules, db, against_type, &inline, context),
            found,
        ),
    }
}

/// All diagnostics of all parts, one part after the other.
pub open spec fn joined(parts: Seq<Vec<ApolloDiagnostic>>) -> Seq<ApolloDiagnostic>
    decreases parts.len(),
{
    if parts.len() == 0 {
        Seq::empty()
    } else {
        joined(parts.drop_last()) + parts.last()@
    }
}

/// Whether `found` is what the rules report of the selections: for each selection in turn,
/// something that the rule for its kind reports of it, and nothing else.
pub open spec fn rules_report<R: SelectionRules>(
    rules: &R,
    db: &ValidationDatabase,
    against_type: Option<&NamedType>,
    selections: Seq<Selection>,
    context: &OperationValidationConfig,
    found: Seq<ApolloDiagnostic>,
) -> bool {
    exists|parts: Seq<Vec<ApolloDiagnostic>>|
        {
            &&& parts.len() == selections.len()
            &&& forall|i: int|
                0 <= i < parts.len() ==> rule_reports(
                    rules,
                    db,
                    against_type,
                    selections[i],
                    context,
                    #[trigger] parts[i],
                )
            &&& found == #[trigger] joined(parts)
        }
}

proof fn lemma_joined_concat(
    first: Seq<Vec<ApolloDiagnostic>>,
    second: Seq<Vec<ApolloDiagnostic>>,
)
    ensures
        joined(first + second) == joined(first) + joined(second),
    decreases second.len(),
{
    if second.len() == 0 {
        assert(first + second =~= first);
        assert(joined(first) + joined(second) =~= joined(first));
    } else {
        assert((first + second).drop_last() =~= first + second.drop_last());
        lemma_joined_concat(first, second.drop_last());
        assert(joined(first) + joined(second) =~= (joined(first) + joined(second.drop_last()))
            + second.last()@);
    }
}

/// Each selection is looked at on its own: what is reported of selections, followed by what is
/// reported of more of them, is what is reported of all of them.
pub proof fn lemma_rules_report_concat<R: SelectionRules>(
    rules: &R,
    db: &ValidationDatabase,
    against_type: Option<&NamedType>,
    first: Seq<Selection>,
    second: Seq<Selection>,
    context: &OperationValidationConfig,
    found_first: Seq<ApolloDiagnostic>,
    found_second: Seq<ApolloDiagnostic>,
)
    requires
        rules_report(rules, db, against_type, first, context, found_first),
        rules_report(rules, db, against_type, second, context, found_second),
    ensures
        rules_report(
            rules,
            db,
            against_type,
            first + second,
            context,
            found_first + found_second,
        ),
{
    let parts_first = choose|parts: Seq<Vec<ApolloDiagnostic>>|
        {
            &&& parts.len() == first.len()
            &&& forall|i: int|
                0 <= i < parts.len() ==> rule_reports(
                    rules,
                    db,
                    against_type,
                    first[i],
                    context,
                    #[trigger] parts[i],
                )
            &&& found_first == #[trigger] joined(parts)
        };
    let parts_second = choose|parts: Seq<Vec<ApolloDiagnostic>>|
        {
            &&& parts.len() == second.len()
            &&& forall|i: int|
                0 <= i < parts.len() ==> rule_reports(
                    rules,
                    db,
                    against_type,
                    second[i],
                    context,
                    #[trigger] parts[i],
                )
            &&& found_second == #[trigger] joined(parts)
        };
    let parts = parts_first + parts_second;
    let all = first + second;
    lemma_joined_concat(parts_first, parts_second);
    assert forall|i: int| 0 <= i < parts.len() implies rule_reports(
        rules,
        db,
        against_type,
        all[i],
        context,
        #[trigger] parts[i],
    ) by {
        if i < first.len() {
            assert(parts[i] == parts_first[i]);
        } else {
            assert(parts[i] == parts_second[i - first.len()]);
        }
    }
}

/// A lone selection is reported on by the rule for its kind, which is asked of the same type and with
/// the same knowledge of the operation as the selections around it.
pub proof fn lemma_rules_report_one<R: SelectionRules>(
    rules: &R,
    db: &ValidationDatabase,
    against_type: Option<&NamedType>,
    selection: Selection,
    context: &OperationValidationConfig,
    found: Seq<ApolloDiagnostic>,
)
    requires
        rules_report(rules, db, against_type, seq![selection], context, found),
    ensures
        exists|reported: Vec<ApolloDiagnostic>|
            {
                &&& #[trigger] reported@ == found
                &&& selection matches Selection::Field(field) ==> call_ensures(
                    R::validate_field,
                    (rules, db, against_type, &field, context),
                    reported,
                )
                &&& selection matches Selection::FragmentSpread(spread) ==> call_ensures(
                    R::validate_fragment_spread,
                    (rules, db, against_type, &spread, context),
                    reported,
                )
                &&& selection matches Selection::InlineFragment(inline) ==> call_ensures(
                    R::validate_inline_fragment,
                    (rules, db, against_type, &inline, context),
                    reported,
                )
            },
{
    let one = seq![selection];
    let parts = choose|parts: Seq<Vec<ApolloDiagnostic>>|
        {
            &&& parts.len() == one.len()
            &&& forall|i: int|
                0 <= i < parts.len() ==> rule_reports(
                    rules,
                    db,
                    against_type,
                    one[i],
                    context,
                    #[trigger] parts[i],
                )
            &&& found == #[trigger] joined(parts)
        };
    assert(rule_reports(rules, db, against_type, one[0], context, parts[0]));
    assert(joined(parts.drop_last()) =~= Seq::empty());
    assert(parts[0]@ =~= found);
}

/// What is reported of selections is what is reported of a first part of them, followed by what is
/// reported of the others: nothing is lost, added or moved. The length of what is reported of the
/// first part.
pub proof fn lemma_rules_report_split<R: SelectionRules>(
    rules: &R,
    db: &ValidationDatabase,
    against_type: Option<&NamedType>,
    first: Seq<Selection>,
    second: Seq<Selection>,
    context: &OperationValidationConfig,
    found: Seq<ApolloDiagnostic>,
) -> (n: int)
    requires
        rules_report(rules, db, against_type, first + second, context, found),
    ensures
        0 <= n <= found.len(),
        rules_report(rules, db, against_type, first, context, found.take(n)),
        rules_report(rules, db, against_type, second, context, found.skip(n)),
{
    let all = first + second;
    let parts = choose|parts: Seq<Vec<ApolloDiagnostic>>|
        {
            &&& parts.len() == all.len()
            &&& forall|i: int|
                0 <= i < parts.len() ==> rule_reports(
                    rules,
                    db,
                    against_type,
                    all[i],
                    context,
                    #[trigger] parts[i],
                )
            &&& found == #[trigger] joined(parts)
        };
    let parts_first = parts.take(first.len() as int);
    let parts_second = parts.skip(first.len() as int);
    assert(parts_first + parts_second =~= parts);
    lemma_joined_concat(parts_first, parts_second);
    let n = joined(parts_first).len() as int;
    assert(found.take(n) =~= joined(parts_first));
    assert(found.skip(n) =~= joined(parts_second));
    assert forall|i: int| 0 <= i < parts_first.len() implies rule_reports(
        rules,
        db,
        against_type,
        first[i],
        context,
        #[trigger] parts_first[i],
    ) by {
        assert(parts[i] == parts_first[i]);
        assert(all[i] == first[i]);
    }
    assert forall|i: int| 0 <= i < parts_second.len() implies rule_reports(
        rules,
        db,
        against_type,
        second[i],
        context,
        #[trigger] parts_second[i],
    ) by {
        assert(parts[first.len() + i] == parts_second[i]);
        assert(all[first.len() + i] == second[i]);
    }
    n
}

/// What the rules report of each of the selections, in their order.
pub fn validate_selections<R: SelectionRules>(
    db: &ValidationDatabase,
    rules: &R,
    against_type: Option<&NamedType>,
    selection_set: &[Selection],
    context: &OperationValidationConfig,
) -> (result: Vec<ApolloDiagnostic>)
    ensures
        rules_report(rules, db, against_type, selection_set@, context, result@),
{
    let mut diagnostics: Vec<ApolloDiagnostic> = Vec::new();
    let ghost mut parts: Seq<Vec<ApolloDiagnostic>> = Seq::empty();
    let mut i: usize = 0;
    while i < selection_set.len()
        invariant
            i <= selection_set.len(),
            parts.len() == i,
            forall|j: int|
                0 <= j < parts.len() ==> rule_reports(
                    rules,
                    db,
                    against_type,
                    selection_set@[j],
                    context,
                    #[trigger] parts[j],
                ),
            diagnostics@ == joined(parts),
        decreases selection_set.len() - i,
    {
        let mut found = match &selection_set[i] {
            Selection::Field(field) => rules.validate_field(db, against_type, field, context),
            Selection::FragmentSpread(spread) => rules.validate_fragment_spread(
                db,
                against_type,
                spread,
                context,
            ),
            Selection::InlineFragment(inline) => rules.validate_inline_fragment(
                db,
                against_type,
                inline,
                context,
            ),
        };
        proof {
            let before = parts;
            parts = before.push(found);
            assert(parts.drop_last() =~= before);
        }
        diagnostics.append(&mut found);
        i += 1;
    }
    diagnostics
}

/// What keeps the fields of the selection set from being merged, as far as that is validated: the
/// first selection must have a location, which tells the file whose named fragments are used, and
/// the type to select from must be known.
pub open spec fn merge_part(
    db: ValidationDatabase,
    against_type: Option<&NamedType>,
    selections: Seq<Selection>,
) -> Option<Seq<DiagnosticView>> {
    match against_type {
        Some(ty) => if selections.len() > 0 && selections[0].location() is Some {
            merge::set_report(
                db,
                db.fragments_of(selections[0].location()->0.file_id),
                ty@,
                selections,
            )
        } else {
            Some(Seq::empty())
        },
        None => Some(Seq::empty()),
    }
}

/// Where a selection was written, whatever its kind.
pub open spec fn written_at(selection: Selection) -> Option<NodeLocation> {
    match selection {
        Selection::Field(field) => field.location,
        Selection::FragmentSpread(spread) => spread.location,
        Selection::InlineFragment(inline) => inline.location,
    }
}

/// Merging is validated in every selection set on a known type whose first selection is located,
/// whatever kind of selection that is: what is reported is what keeps the fields of the set from
/// being merged, with the named fragments of the file of the first selection. In any other selection
/// set it is not validated.
pub proof fn lemma_merging_is_validated(
    db: ValidationDatabase,
    against_type: Option<&NamedType>,
    selections: Seq<Selection>,
)
    ensures
        against_type is Some && selections.len() > 0 && written_at(selections[0]) is Some
            ==> merge_part(db, against_type, selections) == merge::set_report(
            db,
            db.fragments_of(written_at(selections[0])->0.file_id),
            against_type->0@,
            selections,
        ),
        against_type is None || selections.len() == 0 || written_at(selections[0]) is None
            ==> merge_part(db, against_type, selections) == Some(Seq::<DiagnosticView>::empty()),
{
}

/// Putting the first field of a selection set into an inline fragment without a type condition, in
/// the same file, does not change what is reported of merging.
pub proof fn lemma_inline_first_field(
    db: ValidationDatabase,
    against_type: Option<&NamedType>,
    field: Field,
    inline: InlineFragment,
    rest: Seq<Selection>,
)
    requires
        db.finite(),
        inline.type_condition is None,
        inline.selection_set@ == seq![Selection::Field(field)],
        field.location is Some,
        inline.location is Some,
        field.location->0.file_id == inline.location->0.file_id,
    ensures
        merge_part(db, against_type, seq![Selection::InlineFragment(inline)] + rest) == merge_part(
            db,
            against_type,
            seq![Selection::Field(field)] + rest,
        ),
{
    let closed = seq![Selection::InlineFragment(inline)] + rest;
    let opened = seq![Selection::Field(field)] + rest;
    lemma_merging_is_validated(db, against_type, closed);
    lemma_merging_is_validated(db, against_type, opened);
    if let Some(ty) = against_type {
        let fragments = db.fragments_of(field.location->0.file_id);
        let none = Seq::<(Seq<char>, Selection)>::empty();
        let after = fields::against(ty@, rest);
        fields::lemma_inline_is_transparent(fragments, Set::empty(), none, ty@, inline, after);
        assert(none + (seq![(ty@, Selection::InlineFragment(inline))] + after)
            =~= fields::against(ty@, closed));
        assert(none + (fields::against(ty@, inline.selection_set@) + after) =~= fields::against(
            ty@,
            opened,
        ));
    }
}

/// Everything that is wrong with a selection set: first what keeps its fields from being merged,
/// then what the rules report of each of its selections.
pub fn validate_selection_set2<R: SelectionRules>(
    db: &ValidationDatabase,
    rules: &R,
    against_type: Option<&NamedType>,
    selection_set: &[Selection],
    context: &OperationValidationConfig,
) -> (result: Vec<ApolloDiagnostic>)
    requires
        merge_part(*db, against_type, selection_set@) is Some,
    ensures
        ({
            let n = merge_part(*db, against_type, selection_set@)->0.len() as int;
            &&& n <= result@.len()
            &&& diagnostics::diagnostics_view(result@.take(n)) == merge_part(
                *db,
                against_type,
                selection_set@,
            )->0
            &&& rules_report(rules, db, against_type, selection_set@, context, result@.skip(n))
        }),
{
    let mut diagnostics: Vec<ApolloDiagnostic> = Vec::new();
    if selection_set.len() > 0 {
        if let (Some(location), Some(ty)) = (selection_set[0].location(), against_type) {
            let named_fragments = db.ast_named_fragments(location.file_id);
            if let Err(mut found) = fields_in_set_can_merge(db, named_fragments, ty, selection_set) {
                diagnostics.append(&mut found);
            }
        }
    }
    let ghost merging = diagnostics@;
    assert(diagnostics::diagnostics_view(merging) =~= merge_part(
        *db,
        against_type,
        selection_set@,
    )->0);
    let mut found = validate_selections(db, rules, against_type, selection_set, context);
    let ghost of_rules = found@;
    diagnostics.append(&mut found);
    proof {
        let n = merging.len() as int;
        assert(diagnostics@.take(n) =~= merging);
        assert(diagnostics@.skip(n) =~= of_rules);
    }
    diagnostics
}

} // verus!
