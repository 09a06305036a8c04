//! The fields that apply to an object: fragments expanded, skipped selections left out, and fields
//! with the same response key grouped.
use indexmap::IndexMap;
use vstd::prelude::*;

use crate::ast;
use crate::ast::{Name, Value};
use crate::execution::executable;
use crate::execution::executable::{
    ExecutableDocument, Field, Fragment, FragmentSpread, Selection,
};
use crate::execution::json;
use crate::execution::json::{JsonMap, JsonView};
use crate::execution::groups;
use crate::execution::groups::group_of;
use crate::grouping;
use crate::names;
use crate::names::{same_text, NameSet};
use crate::schema::{ExtendedType, ObjectType, Schema};

verus! {

/// What decides which selections apply: the schema, the named fragments, the variable values, and
/// the type of the object that is selected from.
pub struct Scope {
    pub schema: Schema,
    pub fragments: Map<Seq<char>, Fragment>,
    pub variables: Seq<(Seq<char>, JsonView)>,
    pub object_name: Seq<char>,
    pub object: ObjectType,
}

/// The scope of selections from an object.
pub open spec fn scope_of(
    schema: Schema,
    document: ExecutableDocument,
    variable_values: JsonMap,
    object_type_name: Seq<char>,
    object_type: ObjectType,
) -> Scope {
    Scope {
        schema,
        fragments: document.fragments@,
        variables: variable_values@,
        object_name: object_type_name,
        object: object_type,
    }
}

/// Whether a name is among the names.
pub open spec fn among(names: Seq<Name>, name: Seq<char>) -> bool {
    exists|i: int| 0 <= i < names.len() && (#[trigger] names[i])@ == name
}

fn is_among(names: &Vec<Name>, name: &str) -> (result: bool)
    ensures
        result == among(names@, name@),
{
    let mut i: usize = 0;
    while i < names.len()
        invariant
            i <= names.len(),
            forall|j: int| 0 <= j < i ==> (#[trigger] names@[j])@ != name@,
        decreases names.len() - i,
    {
        if same_text(names[i].as_str(), name) {
            return true;
        }
        i += 1;
    }
    false
}

/// Whether a fragment on the given type applies to objects of the given object type: it is that
/// type, an interface that the type implements, or a union that the type is a member of. A
/// fragment on a type of another kind, or on an undefined one, applies to nothing.
pub open spec fn fragment_applies(
    schema: Schema,
    object_name: Seq<char>,
    object: ObjectType,
    fragment_type: Seq<char>,
) -> bool {
    match schema.type_called(fragment_type) {
        Some(ExtendedType::Object(_)) => fragment_type == object_name,
        Some(ExtendedType::Interface(_)) => among(object.implements_interfaces@, fragment_type),
        Some(ExtendedType::Union(union)) => among(union.members@, object_name),
        _ => false,
    }
}

/// Whether a fragment on the given type applies to objects of the given object type.
pub fn does_fragment_type_apply(
    schema: &Schema,
    object_type_name: &str,
    object_type: &ObjectType,
    fragment_type: &Name,
) -> (result: bool)
    ensures
        result == fragment_applies(*schema, object_type_name@, *object_type, fragment_type@),
{
    match schema.types.get(fragment_type.as_str()) {
        Some(ExtendedType::Object(_)) => same_text(fragment_type.as_str(), object_type_name),
        Some(ExtendedType::Interface(_)) => {
            is_among(&object_type.implements_interfaces, fragment_type.as_str())
        },
        Some(ExtendedType::Union(union)) => is_among(&union.members, object_type_name),
        _ => false,
    }
}

/// What the `if` argument of a selection's directive says: the first directive of the name counts,
/// and its first `if` argument. Nothing is said where one of them is missing, and by a value that
/// is neither a truth value nor a variable that holds one.
pub open spec fn if_argument(
    selection: Selection,
    directive_name: Seq<char>,
    variables: Seq<(Seq<char>, JsonView)>,
) -> Option<bool> {
    match ast::directive_named(selection.applied(), directive_name) {
        Some(directive) => match ast::argument_named(directive.arguments@, "if"@) {
            Some(argument) => match argument.value {
                Value::Boolean(value) => Some(value),
                Value::Variable(variable) => match json::json_get(variables, variable@) {
                    Some(JsonView::Bool(value)) => Some(value),
                    _ => None,
                },
                _ => None,
            },
            None => None,
        },
        None => None,
    }
}

/// What the `if` argument of a selection's directive says.
pub fn eval_if_arg(
    selection: &Selection,
    directive_name: &str,
    variable_values: &JsonMap,
) -> (result: Option<bool>)
    ensures
        result == if_argument(*selection, directive_name@, variable_values@),
{
    let directive = ast::find_directive(selection.directives(), directive_name)?;
    let argument = ast::find_argument(&directive.arguments, "if")?;
    match &argument.value {
        Value::Boolean(value) => Some(*value),
        Value::Variable(variable) => variable_values.get(variable.as_str())?.as_bool(),
        _ => None,
    }
}

/// Whether a selection is left out: it is told to be skipped, or told not to be included.
pub open spec fn left_out(selection: Selection, variables: Seq<(Seq<char>, JsonView)>) -> bool {
    if_argument(selection, "skip"@, variables) == Some(true) || if_argument(
        selection,
        "include"@,
        variables,
    ) == Some(false)
}

/// What collecting gives: the fields, and the names of all fragments met until then.
#[verifier::ext_equal]
pub struct Collection {
    pub fields: Seq<Field>,
    pub visited: Set<Seq<char>>,
}

/// The fields that `work` selects from an object, where the fragments named in `visited` were met
/// before.
///
/// Fields come in the order in which they are written, with fragments expanded where they stand.
/// A selection that is left out selects nothing, and a fragment in it is not met. A named fragment
/// is expanded only where it is met first. A fragment that does not apply to the object, or that is
/// not there, selects nothing.
pub open spec fn collect(scope: Scope, visited: Set<Seq<char>>, work: Seq<Selection>) -> Collection
    decreases names::unseen(scope.fragments, visited), executable::selections_size(work),
    when scope.fragments.dom().finite()
{
    if work.len() == 0 {
        Collection { fields: Seq::empty(), visited }
    } else {
        let rest = work.skip(1);
        proof {
            executable::lemma_first_size(work);
        }
        if left_out(work[0], scope.variables) {
            collect(scope, visited, rest)
        } else {
            match work[0] {
                Selection::Field(field) => {
                    let after = collect(scope, visited, rest);
                    Collection { fields: seq![field] + after.fields, visited: after.visited }
                },
                Selection::FragmentSpread(spread) => {
                    let name = spread.fragment_name@;
                    proof {
                        names::lemma_unseen_insert(scope.fragments, visited, name);
                    }
                    if visited.contains(name) {
                        collect(scope, visited, rest)
                    } else if scope.fragments.contains_key(name) && fragment_applies(
                        scope.schema,
                        scope.object_name,
                        scope.object,
                        scope.fragments[name].selection_set.ty@,
                    ) {
                        collect(
                            scope,
                            visited.insert(name),
                            scope.fragments[name].selection_set.selections@ + rest,
                        )
                    } else {
                        collect(scope, visited.insert(name), rest)
                    }
                },
                Selection::InlineFragment(inline) => {
                    let applies = match inline.type_condition {
                        Some(condition) => fragment_applies(
                            scope.schema,
                            scope.object_name,
                            scope.object,
                            condition@,
                        ),
                        None => true,
                    };
                    proof {
                        executable::lemma_selections_size(
                            inline.selection_set.selections@,
                            rest,
                        );
                    }
                    if applies {
                        collect(scope, visited, inline.selection_set.selections@ + rest)
                    } else {
                        collect(scope, visited, rest)
                    }
                },
            }
        }
    }
}

/// Collecting from selections is collecting from a first part of them, then from the others with
/// the fragments met by then.
pub proof fn lemma_collect_concat(
    scope: Scope,
    visited: Set<Seq<char>>,
    first: Seq<Selection>,
    second: Seq<Selection>,
)
    requires
        scope.fragments.dom().finite(),
    ensures
        ({
            let before = collect(scope, visited, first);
            let after = collect(scope, before.visited, second);
            collect(scope, visited, first + second) == (Collection {
                fields: before.fields + after.fields,
                visited: after.visited,
            })
        }),
        visited.subset_of(collect(scope, visited, first).visited),
    decreases names::unseen(scope.fragments, visited), executable::selections_size(first),
{
    let work = first + second;
    if first.len() == 0 {
        assert(work =~= second);
        let after = collect(scope, visited, second);
        assert(Seq::<Field>::empty() + after.fields =~= after.fields);
    } else {
        let rest = first.skip(1);
        executable::lemma_first_size(first);
        assert(work[0] == first[0]);
        assert(work.skip(1) =~= rest + second);
        if left_out(first[0], scope.variables) {
            lemma_collect_concat(scope, visited, rest, second);
        } else {
            match first[0] {
                Selection::Field(field) => {
                    lemma_collect_concat(scope, visited, rest, second);
                    let before = collect(scope, visited, rest);
                    let after = collect(scope, before.visited, second);
                    assert(seq![field] + (before.fields + after.fields) =~= (seq![field]
                        + before.fields) + after.fields);
                },
                Selection::FragmentSpread(spread) => {
                    let name = spread.fragment_name@;
                    names::lemma_unseen_insert(scope.fragments, visited, name);
                    if visited.contains(name) {
                        lemma_collect_concat(scope, visited, rest, second);
                    } else if scope.fragments.contains_key(name) && fragment_applies(
                        scope.schema,
                        scope.object_name,
                        scope.object,
                        scope.fragments[name].selection_set.ty@,
                    ) {
                        let opened = scope.fragments[name].selection_set.selections@;
                        lemma_collect_concat(scope, visited.insert(name), opened + rest, second);
                        assert(opened + (rest + second) =~= (opened + rest) + second);
                    } else {
                        lemma_collect_concat(scope, visited.insert(name), rest, second);
                    }
                },
                Selection::InlineFragment(inline) => {
                    let opened = inline.selection_set.selections@;
                    executable::lemma_selections_size(opened, rest);
                    lemma_collect_concat(scope, visited, opened + rest, second);
                    lemma_collect_concat(scope, visited, rest, second);
                    assert(opened + (rest + second) =~= (opened + rest) + second);
                },
            }
        }
    }
}

/// What collecting from a lone selection gives.
proof fn lemma_collect_one(scope: Scope, visited: Set<Seq<char>>, selection: Selection)
    requires
        scope.fragments.dom().finite(),
    ensures
        collect(scope, visited, seq![selection]) == if left_out(selection, scope.variables) {
            Collection { fields: Seq::empty(), visited }
        } else {
            match selection {
                Selection::Field(field) => Collection { fields: seq![field], visited },
                Selection::FragmentSpread(spread) => {
                    let name = spread.fragment_name@;
                    if visited.contains(name) {
                        Collection { fields: Seq::empty(), visited }
                    } else if scope.fragments.contains_key(name) && fragment_applies(
                        scope.schema,
                        scope.object_name,
                        scope.object,
                        scope.fragments[name].selection_set.ty@,
                    ) {
                        collect(
                            scope,
                            visited.insert(name),
                            scope.fragments[name].selection_set.selections@,
                        )
                    } else {
                        Collection { fields: Seq::empty(), visited: visited.insert(name) }
                    }
                },
                Selection::InlineFragment(inline) => {
                    let applies = match inline.type_condition {
                        Some(condition) => fragment_applies(
                            scope.schema,
                            scope.object_name,
                            scope.object,
                            condition@,
                        ),
                        None => true,
                    };
                    if applies {
                        collect(scope, visited, inline.selection_set.selections@)
                    } else {
                        Collection { fields: Seq::empty(), visited }
                    }
                },
            }
        },
{
    let work = seq![selection];
    let none = Seq::<Selection>::empty();
    assert(work.skip(1) =~= none);
    assert(collect(scope, visited, none) == (Collection { fields: Seq::empty(), visited }));
    match selection {
        Selection::Field(field) => {
            assert(seq![field] + Seq::<Field>::empty() =~= seq![field]);
        },
        Selection::FragmentSpread(spread) => {
            let name = spread.fragment_name@;
            assert(collect(scope, visited.insert(name), none) == (Collection {
                fields: Seq::empty(),
                visited: visited.insert(name),
            }));
            if scope.fragments.contains_key(name) {
                let opened = scope.fragments[name].selection_set.selections@;
                assert(opened + none =~= opened);
            }
        },
        Selection::InlineFragment(inline) => {
            let opened = inline.selection_set.selections@;
            assert(opened + none =~= opened);
        },
    }
}

/// A selection that is left out makes no difference.
pub proof fn lemma_left_out(
    scope: Scope,
    visited: Set<Seq<char>>,
    before: Seq<Selection>,
    selection: Selection,
    after: Seq<Selection>,
)
    requires
        scope.fragments.dom().finite(),
        left_out(selection, scope.variables),
    ensures
        collect(scope, visited, before + (seq![selection] + after)) == collect(
            scope,
            visited,
            before + after,
        ),
{
    let more = seq![selection] + after;
    assert(more.skip(1) =~= after);
    lemma_collect_concat(scope, visited, before, more);
    lemma_collect_concat(scope, visited, before, after);
}

/// A fragment that is spread once more adds nothing: its fields are there already.
pub proof fn lemma_spread_again(
    scope: Scope,
    visited: Set<Seq<char>>,
    work: Seq<Selection>,
    spread: FragmentSpread,
)
    requires
        scope.fragments.dom().finite(),
        collect(scope, visited, work).visited.contains(spread.fragment_name@),
    ensures
        collect(scope, visited, work.push(Selection::FragmentSpread(spread))) == collect(
            scope,
            visited,
            work,
        ),
{
    let one = seq![Selection::FragmentSpread(spread)];
    let before = collect(scope, visited, work);
    assert(work.push(one[0]) =~= work + one);
    lemma_collect_concat(scope, visited, work, one);
    lemma_collect_one(scope, before.visited, one[0]);
    assert(before.fields + Seq::<Field>::empty() =~= before.fields);
}

/// The response key of a field.
pub open spec fn by_response_key() -> spec_fn(Field) -> Seq<char> {
    |field: Field| field.key()
}

/// The fields that the selections select from an object, grouped by their response key in the order
/// in which the keys first occur.
pub open spec fn groups_of(scope: Scope, selections: Seq<Selection>) -> Seq<
    (Seq<char>, Seq<Field>),
> {
    grouping::grouped(collect(scope, Set::empty(), selections).fields, by_response_key())
}

/// No response key has two groups, every group holds at least one field, and all of its fields have
/// its response key.
pub proof fn lemma_groups(scope: Scope, selections: Seq<Selection>)
    ensures
        forall|i: int, j: int|
            0 <= i < j < groups_of(scope, selections).len() ==> (#[trigger] groups_of(
                scope,
                selections,
            )[i]).0 != (#[trigger] groups_of(scope, selections)[j]).0,
        forall|i: int|
            0 <= i < groups_of(scope, selections).len() ==> (#[trigger] groups_of(
                scope,
                selections,
            )[i]).1.len() > 0,
        forall|i: int, j: int|
            0 <= i < groups_of(scope, selections).len() && 0 <= j < groups_of(
                scope,
                selections,
            )[i].1.len() ==> (#[trigger] groups_of(scope, selections)[i].1[j]).key() == groups_of(
                scope,
                selections,
            )[i].0,
{
    let found = collect(scope, Set::empty(), selections).fields;
    let keys = grouping::keys_in_order(found, by_response_key());
    let groups = groups_of(scope, selections);
    grouping::lemma_grouped(found, by_response_key());
    assert forall|i: int, j: int| 0 <= i < j < groups.len() implies (#[trigger] groups[i]).0 != (
    #[trigger] groups[j]).0 by {
        assert(groups[i].0 == keys[i] && groups[j].0 == keys[j]);
    }
    assert forall|i: int, j: int|
        0 <= i < groups.len() && 0 <= j < groups[i].1.len() implies (
    #[trigger] groups[i].1[j]).key() == groups[i].0 by {
        assert(by_response_key()(groups[i].1[j]) == groups[i].0);
    }
}

fn references<'a>(selections: &'a Vec<Selection>) -> (result: Vec<&'a Selection>)
    ensures
        result@.unref() == selections@,
{
    let mut result: Vec<&'a Selection> = Vec::new();
    let mut i: usize = 0;
    while i < selections.len()
        invariant
            i <= selections.len(),
            result@.unref() =~= selections@.take(i as int),
        decreases selections.len() - i,
    {
        let ghost before = result@;
        result.push(&selections[i]);
        assert(result@.unref() =~= before.unref().push(selections@[i as int]));
        i += 1;
    }
    assert(selections@.take(i as int) =~= selections@);
    result
}

/// Adds to `grouped_fields` the fields that the selections select from an object of the given type,
/// and to `visited_fragments` the fragments met.
pub fn collect_fields<'a>(
    schema: &Schema,
    document: &'a ExecutableDocument,
    variable_values: &JsonMap,
    object_type_name: &str,
    object_type: &ObjectType,
    selections: &[&'a Selection],
    visited_fragments: &mut NameSet,
    grouped_fields: &mut IndexMap<&'a Name, Vec<&'a Field>>,
)
    ensures
        ({
            let collected = collect(
                scope_of(
                    *schema,
                    *document,
                    *variable_values,
                    object_type_name@,
                    *object_type,
                ),
                old(visited_fragments)@,
                selections@.unref(),
            );
            &&& final(visited_fragments)@ == collected.visited
            &&& groups::entries(*final(grouped_fields)) == grouping::with_items(
                groups::entries(*old(grouped_fields)),
                collected.fields,
                by_response_key(),
            )
        }),
    decreases
            names::unseen(document.fragments@, old(visited_fragments)@),
            executable::selections_size(selections@.unref()),
{
    let ghost scope = scope_of(
        *schema,
        *document,
        *variable_values,
        object_type_name@,
        *object_type,
    );
    let ghost all = selections@.unref();
    proof {
        use_type_invariant(&document.fragments);
        assert(all.take(0) =~= Seq::empty());
    }
    let mut i: usize = 0;
    while i < selections.len()
        invariant
            i <= selections.len(),
            scope.fragments.dom().finite(),
            scope == scope_of(
                *schema,
                *document,
                *variable_values,
                object_type_name@,
                *object_type,
            ),
            all == selections@.unref(),
            visited_fragments@ == collect(scope, old(visited_fragments)@, all.take(i as int)).visited,
            groups::entries(*grouped_fields) == grouping::with_items(
                groups::entries(*old(grouped_fields)),
                collect(scope, old(visited_fragments)@, all.take(i as int)).fields,
                by_response_key(),
            ),
        decreases selections.len() - i,
    {
        let ghost visited_before = visited_fragments@;
        let ghost groups_before = groups::entries(*grouped_fields);
        let ghost one = seq![all[i as int]];
        let selection = selections[i];
        proof {
            assert(all.take(i + 1) =~= all.take(i as int) + one);
            lemma_collect_concat(scope, old(visited_fragments)@, all.take(i as int), one);
            lemma_collect_one(scope, visited_fragments@, *selection);
            executable::lemma_selection_size(all, i as int);
            names::lemma_unseen_subset(
                scope.fragments,
                old(visited_fragments)@,
                visited_fragments@,
            );
        }
        let skipped = match eval_if_arg(selection, "skip", variable_values) {
            Some(skip) => skip,
            None => false,
        };
        let included = match eval_if_arg(selection, "include", variable_values) {
            Some(include_it) => include_it,
            None => true,
        };
        if !skipped && included {
            match selection {
                Selection::Field(field) => {
                    let group = group_of(grouped_fields, field.response_key());
                    let ghost members = group@;
                    group.push(field);
                    proof {
                        assert(group@.unref() =~= members.unref().push(*field));
                        assert(Seq::<Field>::empty().push(*field) =~= seq![*field]);
                        assert(seq![*field].drop_last() =~= Seq::empty());
                        assert(grouping::with_items(groups_before, seq![*field], by_response_key())
                            == grouping::with_item(groups_before, field.key(), *field)) by {
                            reveal_with_fuel(grouping::with_items, 2);
                        }
                    }
                },
                Selection::FragmentSpread(spread) => {
                    proof {
                        names::lemma_unseen_insert(
                            scope.fragments,
                            visited_fragments@,
                            spread.fragment_name@,
                        );
                        assert(visited_before.contains(spread.fragment_name@) ==> visited_before
                            =~= visited_before.insert(spread.fragment_name@));
                    }
                    let is_new = visited_fragments.insert(spread.fragment_name.clone());
                    if is_new {
                        if let Some(fragment) = document.fragments.get(
                            spread.fragment_name.as_str(),
                        ) {
                            if does_fragment_type_apply(
                                schema,
                                object_type_name,
                                object_type,
                                fragment.type_condition(),
                            ) {
                                let opened = references(&fragment.selection_set.selections);
                                collect_fields(
                                    schema,
                                    document,
                                    variable_values,
                                    object_type_name,
                                    object_type,
                                    opened.as_slice(),
                                    visited_fragments,
                                    grouped_fields,
                                );
                            }
                        }
                    }
                },
                Selection::InlineFragment(inline) => {
                    let applies = match &inline.type_condition {
                        Some(condition) => does_fragment_type_apply(
                            schema,
                            object_type_name,
                            object_type,
                            condition,
                        ),
                        None => true,
                    };
                    if applies {
                        let opened = references(&inline.selection_set.selections);
                        collect_fields(
                            schema,
                            document,
                            variable_values,
                            object_type_name,
                            object_type,
                            opened.as_slice(),
                            visited_fragments,
                            grouped_fields,
                        );
                    }
                },
            }
        }
        proof {
            let first = collect(scope, old(visited_fragments)@, all.take(i as int));
            let more = collect(scope, visited_before, one);
            assert(groups::entries(*grouped_fields) == grouping::with_items(
                groups_before,
                more.fields,
                by_response_key(),
            ));
            grouping::lemma_with_items_concat(
                groups::entries(*old(grouped_fields)),
                first.fields,
                more.fields,
                by_response_key(),
            );
        }
        i += 1;
    }
    assert(all.take(i as int) =~= all);
}

} // verus!
