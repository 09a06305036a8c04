//! When the comparisons of fields come to an end: everything is located, and there is a bound on how
//! many fields stand below each other in each named fragment.
use vstd::prelude::*;

use crate::ast;
use crate::ast::{Argument, Field, FragmentDefinition, NamedType, Selection};
use crate::database::ValidationDatabase;
use crate::lookup;
use crate::names;
use crate::validation::arguments;
use crate::validation::fields;
use crate::validation::fields::SelectedField;
use crate::validation::merge;
use crate::validation::pairs;
use crate::validation::selection;
use crate::validation::shape;

verus! {

/// The named fragments of one source.
pub type Fragments = Map<Seq<char>, FragmentDefinition>;

/// What comparisons look into: the database, the named fragments of every source that fields come
/// from, and a rank for each named fragment of each source. The same name may have another rank in
/// another source.
pub struct Setting {
    pub db: ValidationDatabase,
    pub sources: Set<Fragments>,
    pub rank: spec_fn(Fragments, Seq<char>) -> nat,
}

/// Whether a field, its arguments and all fields below it in its own text have a location, the
/// fields in one of the sources.
pub open spec fn field_located(setting: Setting, field: Field) -> bool
    decreases field,
{
    &&& field.location is Some
    &&& setting.sources.contains(setting.db.fragments_of(field.location->0.file_id))
    &&& forall|i: int|
        0 <= i < field.arguments@.len() ==> (#[trigger] field.arguments@[i]).location is Some
    &&& all_located(setting, field.selection_set@)
}

/// Whether the fields in a selection are located.
pub open spec fn located(setting: Setting, selection: Selection) -> bool
    decreases selection,
{
    match selection {
        Selection::Field(field) => field_located(setting, field),
        Selection::InlineFragment(inline) => all_located(setting, inline.selection_set@),
        Selection::FragmentSpread(_) => true,
    }
}

/// Whether the fields in all of the selections are located.
pub open spec fn all_located(setting: Setting, selections: Seq<Selection>) -> bool
    decreases selections,
{
    selections.len() > 0 ==> located(setting, selections[0]) && all_located(
        setting,
        selections.skip(1),
    )
}

/// How many fields stand below each other at most in a selection, where named fragments are those
/// of `source` and count with their rank.
pub open spec fn levels(setting: Setting, source: Fragments, selection: Selection) -> nat
    decreases selection,
{
    match selection {
        Selection::Field(field) => 1 + all_levels(setting, source, field.selection_set@),
        Selection::InlineFragment(inline) => all_levels(setting, source, inline.selection_set@),
        Selection::FragmentSpread(spread) => (setting.rank)(source, spread.fragment_name@),
    }
}

/// How many fields stand below each other at most in any of the selections.
pub open spec fn all_levels(
    setting: Setting,
    source: Fragments,
    selections: Seq<Selection>,
) -> nat
    decreases selections,
{
    if selections.len() == 0 {
        0
    } else {
        let first = levels(setting, source, selections[0]);
        let others = all_levels(setting, source, selections.skip(1));
        if first >= others {
            first
        } else {
            others
        }
    }
}

/// Whether the selections are located and have at most so many levels, whichever source their named
/// fragments are taken from.
pub open spec fn within(setting: Setting, n: nat, selections: Seq<Selection>) -> bool {
    &&& all_located(setting, selections)
    &&& forall|source: Fragments| #[trigger]
        setting.sources.contains(source) ==> all_levels(setting, source, selections) <= n
}

/// Whether the rank of every named fragment of every source bounds how many fields stand below each
/// other in it. A fragment that is spread again below a field that it selects has no such rank.
pub open spec fn ranked(setting: Setting) -> bool {
    forall|source: Fragments| #[trigger]
        setting.sources.contains(source) ==> {
            &&& source.dom().finite()
            &&& forall|name: Seq<char>| #[trigger]
                source.contains_key(name) ==> within(
                    setting,
                    (setting.rank)(source, name),
                    source[name].selection_set@,
                )
        }
}

proof fn lemma_all_located(setting: Setting, selections: Seq<Selection>, i: int)
    requires
        all_located(setting, selections),
        0 <= i < selections.len(),
    ensures
        located(setting, selections[i]),
    decreases i,
{
    if i > 0 {
        lemma_all_located(setting, selections.skip(1), i - 1);
    }
}

proof fn lemma_all_levels(
    setting: Setting,
    source: Fragments,
    selections: Seq<Selection>,
    i: int,
)
    requires
        0 <= i < selections.len(),
    ensures
        levels(setting, source, selections[i]) <= all_levels(setting, source, selections),
    decreases i,
{
    if i > 0 {
        lemma_all_levels(setting, source, selections.skip(1), i - 1);
    }
}

/// Whether a selection is located and has at most so many levels, whichever source its named
/// fragments are taken from.
spec fn one_within(setting: Setting, n: nat, selection: Selection) -> bool {
    &&& located(setting, selection)
    &&& forall|source: Fragments| #[trigger]
        setting.sources.contains(source) ==> levels(setting, source, selection) <= n
}

spec fn work_within(setting: Setting, n: nat, work: Seq<(Seq<char>, Selection)>) -> bool {
    forall|i: int| 0 <= i < work.len() ==> one_within(setting, n, (#[trigger] work[i]).1)
}

proof fn lemma_opened_within(
    setting: Setting,
    n: nat,
    ty: Seq<char>,
    selections: Seq<Selection>,
    rest: Seq<(Seq<char>, Selection)>,
)
    requires
        within(setting, n, selections),
        work_within(setting, n, rest),
    ensures
        work_within(setting, n, fields::against(ty, selections) + rest),
{
    let work = fields::against(ty, selections) + rest;
    assert forall|i: int| 0 <= i < work.len() implies one_within(
        setting,
        n,
        (#[trigger] work[i]).1,
    ) by {
        if i < selections.len() {
            lemma_all_located(setting, selections, i);
            assert forall|source: Fragments| #[trigger] setting.sources.contains(source) implies
                levels(setting, source, work[i].1) <= n by {
                lemma_all_levels(setting, source, selections, i);
            }
        } else {
            assert(work[i] == rest[i - selections.len()]);
        }
    }
}

/// Whether a field is located and has less than so many levels below it.
pub open spec fn field_within(setting: Setting, n: nat, field: SelectedField) -> bool {
    &&& n > 0
    &&& field_located(setting, field.field)
    &&& within(setting, (n - 1) as nat, field.field.selection_set@)
}

/// Whether all of the fields are located and have less than so many levels below them.
pub open spec fn fields_within(setting: Setting, n: nat, selected: Seq<SelectedField>) -> bool {
    forall|i: int| 0 <= i < selected.len() ==> field_within(setting, n, #[trigger] selected[i])
}

proof fn lemma_field_within(setting: Setting, n: nat, ty: Seq<char>, field: Field)
    requires
        one_within(setting, n, Selection::Field(field)),
    ensures
        field_within(setting, n, (SelectedField { against: ty, field })),
{
    let source = setting.db.fragments_of(field.location->0.file_id);
    assert(levels(setting, source, Selection::Field(field)) <= n);
    assert forall|source: Fragments| #[trigger] setting.sources.contains(source) implies all_levels(
        setting,
        source,
        field.selection_set@,
    ) <= n - 1 by {
        assert(levels(setting, source, Selection::Field(field)) <= n);
    }
}

/// Expanding fragments leads to fields that have fewer levels below them than the selections have.
proof fn lemma_expand_within(
    setting: Setting,
    source: Fragments,
    n: nat,
    seen: Set<Seq<char>>,
    work: Seq<(Seq<char>, Selection)>,
)
    requires
        ranked(setting),
        setting.sources.contains(source),
        work_within(setting, n, work),
    ensures
        fields_within(setting, n, fields::expand(source, seen, work).fields),
    decreases names::unseen(source, seen), fields::work_size(work),
{
    if work.len() > 0 {
        let (ty, selection) = work[0];
        let rest = work.skip(1);
        assert(one_within(setting, n, work[0].1));
        assert(work_within(setting, n, rest)) by {
            assert forall|i: int| 0 <= i < rest.len() implies one_within(
                setting,
                n,
                (#[trigger] rest[i]).1,
            ) by {
                assert(rest[i] == work[i + 1]);
            }
        }
        match selection {
            Selection::Field(field) => {
                lemma_expand_within(setting, source, n, seen, rest);
                lemma_field_within(setting, n, ty, field);
                let found = fields::expand(source, seen, work).fields;
                let others = fields::expand(source, seen, rest).fields;
                assert forall|i: int| 0 <= i < found.len() implies field_within(
                    setting,
                    n,
                    #[trigger] found[i],
                ) by {
                    if i > 0 {
                        assert(found[i] == others[i - 1]);
                    }
                }
            },
            Selection::InlineFragment(inline) => {
                let inner = match inline.type_condition {
                    Some(condition) => condition@,
                    None => ty,
                };
                assert(within(setting, n, inline.selection_set@)) by {
                    assert forall|other: Fragments| #[trigger]
                        setting.sources.contains(other) implies all_levels(
                        setting,
                        other,
                        inline.selection_set@,
                    ) <= n by {
                        assert(levels(setting, other, selection) <= n);
                    }
                }
                fields::lemma_work_size(inner, inline.selection_set@, rest);
                lemma_opened_within(setting, n, inner, inline.selection_set@, rest);
                lemma_expand_within(
                    setting,
                    source,
                    n,
                    seen,
                    fields::against(inner, inline.selection_set@) + rest,
                );
            },
            Selection::FragmentSpread(spread) => {
                let name = spread.fragment_name@;
                names::lemma_unseen_insert(source, seen, name);
                if seen.contains(name) {
                    lemma_expand_within(setting, source, n, seen, rest);
                } else if !source.contains_key(name) {
                    lemma_expand_within(setting, source, n, seen.insert(name), rest);
                } else {
                    let fragment = source[name];
                    assert(levels(setting, source, selection) <= n);
                    assert(within(setting, (setting.rank)(source, name), fragment.selection_set@));
                    lemma_opened_within(
                        setting,
                        n,
                        fragment.type_condition@,
                        fragment.selection_set@,
                        rest,
                    );
                    lemma_expand_within(
                        setting,
                        source,
                        n,
                        seen.insert(name),
                        fields::against(fragment.type_condition@, fragment.selection_set@) + rest,
                    );
                }
            },
        }
    }
}

/// The fields of a selection set have fewer levels below them than the set has.
pub proof fn lemma_fields_within(
    setting: Setting,
    source: Fragments,
    n: nat,
    ty: Seq<char>,
    selections: Seq<Selection>,
)
    requires
        ranked(setting),
        setting.sources.contains(source),
        within(setting, n, selections),
    ensures
        fields_within(setting, n, fields::fields_of(source, ty, selections)),
{
    let none = Seq::<(Seq<char>, Selection)>::empty();
    lemma_opened_within(setting, n, ty, selections, none);
    assert(fields::against(ty, selections) + none =~= fields::against(ty, selections));
    lemma_expand_within(setting, source, n, Set::empty(), fields::against(ty, selections));
}

/// Whether both fields of each pair are located and have less than so many levels below them.
spec fn pairs_within(
    setting: Setting,
    n: nat,
    pairs: Seq<(SelectedField, SelectedField)>,
) -> bool {
    forall|i: int|
        0 <= i < pairs.len() ==> field_within(setting, n, (#[trigger] pairs[i]).0) && field_within(
            setting,
            n,
            pairs[i].1,
        )
}

proof fn lemma_rest_within(
    setting: Setting,
    n: nat,
    pairs: Seq<(SelectedField, SelectedField)>,
)
    requires
        pairs.len() > 0,
        pairs_within(setting, n, pairs),
    ensures
        pairs_within(setting, n, pairs.skip(1)),
{
    let others = pairs.skip(1);
    assert forall|i: int| 0 <= i < others.len() implies field_within(
        setting,
        n,
        (#[trigger] others[i]).0,
    ) && field_within(setting, n, others[i].1) by {
        assert(others[i] == pairs[i + 1]);
    }
}

proof fn lemma_member_within(
    setting: Setting,
    n: nat,
    selected: Seq<SelectedField>,
    g: int,
    p: int,
)
    requires
        fields_within(setting, n, selected),
        0 <= g < fields::fields_by_name(selected).len(),
        0 <= p < fields::fields_by_name(selected)[g].1.len(),
    ensures
        field_within(setting, n, fields::fields_by_name(selected)[g].1[p]),
{
    let member = fields::fields_by_name(selected)[g].1[p];
    pairs::lemma_member_is_field(selected, g, p);
    let i = choose|i: int| 0 <= i < selected.len() && selected[i] == member;
    assert(field_within(setting, n, selected[i]));
}

/// The shapes of two located fields can be compared where fragments are ranked: it takes no more
/// levels than there are below the fields.
pub proof fn lemma_shape_settles(setting: Setting, n: nat, a: SelectedField, b: SelectedField)
    requires
        ranked(setting),
        field_within(setting, n, a),
        field_within(setting, n, b),
    ensures
        !(shape::shape_within(setting.db, n, a, b) is Undetermined),
        !(shape::shape_comparison(setting.db, a, b) is Undetermined),
        shape::shape_depth(setting.db, a, b) <= n,
    decreases n, 0nat,
{
    let db = setting.db;
    let source = db.fragments_of(a.field.location->0.file_id);
    let below_a = shape::fields_below(db, source, a);
    let below_b = shape::fields_below(db, source, b);
    let all = below_a + below_b;
    let less = (n - 1) as nat;
    let ty_a = ast::inner_name(db.schema.field_of(a.against, a.field.name@)->0.ty)@;
    let ty_b = ast::inner_name(db.schema.field_of(b.against, b.field.name@)->0.ty)@;
    lemma_fields_within(setting, source, less, ty_a, a.field.selection_set@);
    lemma_fields_within(setting, source, less, ty_b, b.field.selection_set@);
    assert(fields_within(setting, less, all)) by {
        assert forall|i: int| 0 <= i < all.len() implies field_within(
            setting,
            less,
            #[trigger] all[i],
        ) by {
            if i < below_a.len() {
                assert(all[i] == below_a[i]);
            } else {
                assert(all[i] == below_b[i - below_a.len()]);
            }
        }
    }
    let below = shape::pairs_below(db, a, b);
    assert forall|i: int| 0 <= i < below.len() implies field_within(
        setting,
        less,
        (#[trigger] below[i]).0,
    ) && field_within(setting, less, below[i].1) by {
        let (g, p, q) = pairs::lemma_pair_is(fields::fields_by_name(all), i);
        lemma_member_within(setting, less, all, g, p);
        lemma_member_within(setting, less, all, g, q);
    }
    lemma_first_conflict_settles(setting, less, below);
    shape::lemma_shape_comparison(db, n, a, b);
}

proof fn lemma_first_conflict_settles(
    setting: Setting,
    n: nat,
    pairs: Seq<(SelectedField, SelectedField)>,
)
    requires
        ranked(setting),
        pairs_within(setting, n, pairs),
    ensures
        !(shape::first_conflict_within(setting.db, n, pairs) is Undetermined),
    decreases n, pairs.len() + 1,
{
    if pairs.len() > 0 {
        assert(field_within(setting, n, pairs[0].0));
        lemma_shape_settles(setting, n, pairs[0].0, pairs[0].1);
        lemma_rest_within(setting, n, pairs);
        lemma_first_conflict_settles(setting, n, pairs.skip(1));
    }
}

/// The arguments of two located fields can be compared.
pub proof fn lemma_arguments_settle(setting: Setting, a: Field, b: Field)
    requires
        field_located(setting, a),
        field_located(setting, b),
    ensures
        !(arguments::argument_comparison(a, b) is Undetermined),
{
    let differs = |argument: Argument| arguments::argument_differs(argument, b.arguments@);
    let missing = |argument: Argument|
        ast::argument_named(a.arguments@, argument.name@) is None;
    lookup::lemma_first_match(a.arguments@, differs);
    lookup::lemma_first_match(b.arguments@, missing);
    if let Some(argument) = arguments::first_different(a.arguments@, b.arguments@) {
        let i = choose|i: int| 0 <= i < a.arguments@.len() && a.arguments@[i] == argument;
        assert(a.arguments@[i].location is Some);
        let named = ast::argument_has_name(argument.name@);
        lookup::lemma_first_match(b.arguments@, named);
        if let Some(other) = ast::argument_named(b.arguments@, argument.name@) {
            let j = choose|j: int| 0 <= j < b.arguments@.len() && b.arguments@[j] == other;
            assert(b.arguments@[j].location is Some);
        }
    } else if let Some(argument) = arguments::first_missing(b.arguments@, a.arguments@) {
        let i = choose|i: int| 0 <= i < b.arguments@.len() && b.arguments@[i] == argument;
        assert(b.arguments@[i].location is Some);
    }
}

/// The fields below two fields have fewer levels below them than the two have.
proof fn lemma_merged_below_within(
    setting: Setting,
    source: Fragments,
    n: nat,
    a: SelectedField,
    b: SelectedField,
)
    requires
        ranked(setting),
        setting.sources.contains(source),
        field_within(setting, n, a),
        field_within(setting, n, b),
    ensures
        fields_within(setting, (n - 1) as nat, merge::merged_below(setting.db, source, a, b)),
{
    let db = setting.db;
    let less = (n - 1) as nat;
    if let (Some(ty_a), Some(ty_b)) = (merge::type_below(db, a, b), merge::type_below(db, b, a)) {
        let none = Seq::<(Seq<char>, Selection)>::empty();
        let work_b = fields::against(ty_b, b.field.selection_set@);
        lemma_opened_within(setting, less, ty_b, b.field.selection_set@, none);
        assert(work_b + none =~= work_b);
        lemma_opened_within(setting, less, ty_a, a.field.selection_set@, work_b);
        lemma_expand_within(
            setting,
            source,
            less,
            Set::empty(),
            fields::against(ty_a, a.field.selection_set@) + work_b,
        );
    }
}

proof fn lemma_merge_pairs_within(setting: Setting, n: nat, selected: Seq<SelectedField>)
    requires
        fields_within(setting, n, selected),
    ensures
        pairs_within(setting, n, merge::merge_pairs(setting.db, selected)),
{
    let found = merge::merge_pairs(setting.db, selected);
    assert forall|i: int| 0 <= i < found.len() implies field_within(
        setting,
        n,
        (#[trigger] found[i]).0,
    ) && field_within(setting, n, found[i].1) by {
        let (g, p, q) = merge::lemma_merge_pair_is(setting.db, selected, i);
        lemma_member_within(setting, n, selected, g, p);
        lemma_member_within(setting, n, selected, g, q);
    }
}

proof fn lemma_pairs_report_settles(
    setting: Setting,
    source: Fragments,
    n: nat,
    pairs: Seq<(SelectedField, SelectedField)>,
)
    requires
        ranked(setting),
        setting.sources.contains(source),
        pairs_within(setting, n, pairs),
    ensures
        merge::pairs_report_within(setting.db, source, n, pairs) is Some,
    decreases n, pairs.len(),
{
    if pairs.len() > 0 {
        let db = setting.db;
        let (a, b) = pairs[0];
        let less = (n - 1) as nat;
        let below = merge::merged_below(db, source, a, b);
        assert(field_within(setting, n, pairs[0].0) && field_within(setting, n, pairs[0].1));
        lemma_shape_settles(setting, n, a, b);
        lemma_arguments_settle(setting, a.field, b.field);
        lemma_merged_below_within(setting, source, n, a, b);
        lemma_merge_pairs_within(setting, less, below);
        lemma_pairs_report_settles(setting, source, less, merge::merge_pairs(db, below));
        assert(merge::pair_report_within(db, source, n, a, b) is Some);
        lemma_rest_within(setting, n, pairs);
        lemma_pairs_report_settles(setting, source, n, pairs.skip(1));
    }
}

/// Whether the fields of a selection set can be merged is determined for every located selection
/// set, where the named fragments are ranked.
pub proof fn lemma_merging_settles(
    setting: Setting,
    source: Fragments,
    n: nat,
    ty: Seq<char>,
    selections: Seq<Selection>,
)
    requires
        ranked(setting),
        setting.sources.contains(source),
        within(setting, n, selections),
    ensures
        merge::set_report(setting.db, source, ty, selections) is Some,
{
    let selected = fields::fields_of(source, ty, selections);
    lemma_fields_within(setting, source, n, ty, selections);
    lemma_merge_pairs_within(setting, n, selected);
    lemma_pairs_report_settles(setting, source, n, merge::merge_pairs(setting.db, selected));
    merge::lemma_merge_report(setting.db, source, n, selected);
}

/// A located selection set can be validated where the named fragments are ranked. The first
/// selection, where it has a location, has it in one of the sources.
pub proof fn lemma_validation_settles(
    setting: Setting,
    n: nat,
    against_type: Option<&NamedType>,
    selections: Seq<Selection>,
)
    requires
        ranked(setting),
        within(setting, n, selections),
        selections.len() > 0 && selections[0].location() is Some ==> setting.sources.contains(
            setting.db.fragments_of(selections[0].location()->0.file_id),
        ),
    ensures
        selection::merge_part(setting.db, against_type, selections) is Some,
{
    if let Some(ty) = against_type {
        if selections.len() > 0 && selections[0].location() is Some {
            let source = setting.db.fragments_of(selections[0].location()->0.file_id);
            lemma_merging_settles(setting, source, n, ty@, selections);
        }
    }
}

} // verus!
