//! Which fields selections select from an object, said without an order: those that stand in them,
//! in their inline fragments, and in the named fragments that they lead to, where nothing on the way
//! is left out and every fragment applies.
use vstd::prelude::*;

use crate::ast;
use crate::ast::{Argument, Directive, Value};
use crate::execution::collect;
use crate::execution::collect::{Collection, Scope};
use crate::execution::executable;
use crate::execution::executable::{Field, FragmentSpread, InlineFragment, Selection};
use crate::execution::json;
use crate::execution::json::JsonView;
use crate::lookup;
use crate::names;

verus! {

/// The directives that are written on a selection, whatever its kind.
pub open spec fn written_on(selection: Selection) -> Seq<Directive> {
    match selection {
        Selection::Field(field) => field.directives@,
        Selection::FragmentSpread(spread) => spread.directives@,
        Selection::InlineFragment(inline) => inline.directives@,
    }
}

/// Whether a variable holds a truth value: of entries with the same name the first counts.
pub open spec fn holds(
    variables: Seq<(Seq<char>, JsonView)>,
    name: Seq<char>,
    truth: bool,
) -> bool {
    exists|i: int|
        {
            &&& 0 <= i < variables.len()
            &&& #[trigger] variables[i] == (name, JsonView::Bool(truth))
            &&& forall|j: int| 0 <= j < i ==> (#[trigger] variables[j]).0 != name
        }
}

/// Whether a value is a truth value, as it is written or as a variable that holds it.
pub open spec fn is_truth(
    variables: Seq<(Seq<char>, JsonView)>,
    value: Value,
    truth: bool,
) -> bool {
    value == Value::Boolean(truth) || value is Variable && holds(
        variables,
        value->Variable_0@,
        truth,
    )
}

/// Whether the first `if` among arguments has a truth value.
pub open spec fn if_is(
    variables: Seq<(Seq<char>, JsonView)>,
    arguments: Seq<Argument>,
    truth: bool,
) -> bool {
    exists|i: int|
        {
            &&& 0 <= i < arguments.len()
            &&& (#[trigger] arguments[i]).name@ == "if"@
            &&& is_truth(variables, arguments[i].value, truth)
            &&& forall|j: int| 0 <= j < i ==> (#[trigger] arguments[j]).name@ != "if"@
        }
}

/// Whether the first directive of a name that is written on a selection has a truth value as its
/// first `if`.
pub open spec fn tells(
    variables: Seq<(Seq<char>, JsonView)>,
    directives: Seq<Directive>,
    name: Seq<char>,
    truth: bool,
) -> bool {
    exists|i: int|
        {
            &&& 0 <= i < directives.len()
            &&& (#[trigger] directives[i]).name@ == name
            &&& if_is(variables, directives[i].arguments@, truth)
            &&& forall|j: int| 0 <= j < i ==> (#[trigger] directives[j]).name@ != name
        }
}

/// Whether a selection, of whatever kind, is told to be skipped or not to be included.
pub open spec fn told_to_leave_out(
    variables: Seq<(Seq<char>, JsonView)>,
    selection: Selection,
) -> bool {
    tells(variables, written_on(selection), "skip"@, true) || tells(
        variables,
        written_on(selection),
        "include"@,
        false,
    )
}

proof fn lemma_holds(variables: Seq<(Seq<char>, JsonView)>, name: Seq<char>, truth: bool)
    ensures
        json::json_get(variables, name) == Some(JsonView::Bool(truth)) <==> holds(
            variables,
            name,
            truth,
        ),
{
    let p = json::has_key(name);
    if json::json_get(variables, name) == Some(JsonView::Bool(truth)) {
        let i = lookup::lemma_first_match_at(variables, p);
        assert(variables[i] == (name, JsonView::Bool(truth)));
        assert forall|j: int| 0 <= j < i implies (#[trigger] variables[j]).0 != name by {
            assert(!p(variables[j]));
        }
    }
    if holds(variables, name, truth) {
        let i = choose|i: int|
            {
                &&& 0 <= i < variables.len()
                &&& #[trigger] variables[i] == (name, JsonView::Bool(truth))
                &&& forall|j: int| 0 <= j < i ==> (#[trigger] variables[j]).0 != name
            };
        assert forall|j: int| 0 <= j < i implies !p(#[trigger] variables[j]) by {
            assert(variables[j].0 != name);
        }
        lookup::lemma_is_first_match(variables, p, i);
    }
}

/// What the `if` of a directive on a selection says is what the directives written on it tell.
pub proof fn lemma_if_argument(
    selection: Selection,
    name: Seq<char>,
    variables: Seq<(Seq<char>, JsonView)>,
    truth: bool,
)
    ensures
        collect::if_argument(selection, name, variables) == Some(truth) <==> tells(
            variables,
            written_on(selection),
            name,
            truth,
        ),
{
    let directives = written_on(selection);
    let p = ast::directive_has_name(name);
    let q = ast::argument_has_name("if"@);
    if collect::if_argument(selection, name, variables) == Some(truth) {
        let i = lookup::lemma_first_match_at(directives, p);
        let arguments = directives[i].arguments@;
        let k = lookup::lemma_first_match_at(arguments, q);
        if let Value::Variable(variable) = arguments[k].value {
            lemma_holds(variables, variable@, truth);
        }
        assert forall|j: int| 0 <= j < k implies (#[trigger] arguments[j]).name@ != "if"@ by {
            assert(!q(arguments[j]));
        }
        assert(arguments[k].name@ == "if"@);
        assert(if_is(variables, arguments, truth));
        assert forall|j: int| 0 <= j < i implies (#[trigger] directives[j]).name@ != name by {
            assert(!p(directives[j]));
        }
        assert(directives[i].name@ == name);
    }
    if tells(variables, directives, name, truth) {
        let i = choose|i: int|
            {
                &&& 0 <= i < directives.len()
                &&& (#[trigger] directives[i]).name@ == name
                &&& if_is(variables, directives[i].arguments@, truth)
                &&& forall|j: int| 0 <= j < i ==> (#[trigger] directives[j]).name@ != name
            };
        let arguments = directives[i].arguments@;
        let k = choose|k: int|
            {
                &&& 0 <= k < arguments.len()
                &&& (#[trigger] arguments[k]).name@ == "if"@
                &&& is_truth(variables, arguments[k].value, truth)
                &&& forall|j: int| 0 <= j < k ==> (#[trigger] arguments[j]).name@ != "if"@
            };
        ast::lemma_directive_named(directives, name);
        ast::lemma_argument_named(arguments, "if"@);
        assert(ast::directive_named(directives, name) == Some(directives[i]));
        assert(ast::argument_named(arguments, "if"@) == Some(arguments[k]));
        if let Value::Variable(variable) = arguments[k].value {
            lemma_holds(variables, variable@, truth);
        }
    }
}

proof fn lemma_left_out(selection: Selection, variables: Seq<(Seq<char>, JsonView)>)
    ensures
        collect::left_out(selection, variables) <==> told_to_leave_out(variables, selection),
{
    lemma_if_argument(selection, "skip"@, variables, true);
    lemma_if_argument(selection, "include"@, variables, false);
}

/// A selection of any kind that is told to be skipped, or not to be included, selects nothing from
/// any object, and meets no fragment.
pub proof fn lemma_told_to_leave_out(scope: Scope, visited: Set<Seq<char>>, selection: Selection)
    requires
        scope.fragments.dom().finite(),
        told_to_leave_out(scope.variables, selection),
    ensures
        collect::collect(scope, visited, seq![selection]).fields.len() == 0,
        collect::collect(scope, visited, seq![selection]).visited == visited,
{
    lemma_left_out(selection, scope.variables);
    assert(seq![selection].skip(1) =~= Seq::empty());
    assert(collect::collect(scope, visited, Seq::empty()).fields.len() == 0);
}

/// A selection of any kind with one directive only, `skip` with `if` true or `include` with `if`
/// false, selects nothing from any object, and meets no fragment.
pub proof fn lemma_lone_directive(scope: Scope, visited: Set<Seq<char>>, selection: Selection)
    requires
        scope.fragments.dom().finite(),
        written_on(selection).len() == 1,
        written_on(selection)[0].arguments@.len() == 1,
        written_on(selection)[0].arguments@[0].name@ == "if"@,
        ({
            let name = written_on(selection)[0].name@;
            let value = written_on(selection)[0].arguments@[0].value;
            ||| name == "skip"@ && is_truth(scope.variables, value, true)
            ||| name == "include"@ && is_truth(scope.variables, value, false)
        }),
    ensures
        collect::collect(scope, visited, seq![selection]).fields.len() == 0,
        collect::collect(scope, visited, seq![selection]).visited == visited,
{
    let directives = written_on(selection);
    let name = directives[0].name@;
    let truth = name == "skip"@ && is_truth(
        scope.variables,
        directives[0].arguments@[0].value,
        true,
    );
    assert(directives[0].arguments@[0].name@ == "if"@);
    assert(if_is(scope.variables, directives[0].arguments@, truth));
    assert(tells(scope.variables, directives, name, truth));
    lemma_told_to_leave_out(scope, visited, selection);
}

/// Whether a fragment on the given type applies to the object of the scope: the type is that of the
/// object, an interface that it implements, or a union that it is a member of.
pub open spec fn applies(scope: Scope, ty: Seq<char>) -> bool {
    &&& scope.schema.types@.contains_key(ty)
    &&& {
        ||| scope.schema.types@[ty] is Object && ty == scope.object_name
        ||| scope.schema.types@[ty] is Interface && exists|i: int|
            0 <= i < scope.object.implements_interfaces@.len()
                && (#[trigger] scope.object.implements_interfaces@[i])@ == ty
        ||| scope.schema.types@[ty] is Union && exists|i: int|
            0 <= i < scope.schema.types@[ty]->Union_0.members@.len()
                && (#[trigger] scope.schema.types@[ty]->Union_0.members@[i])@ == scope.object_name
    }
}

/// A fragment applies to an object exactly where its type is that of the object, an interface that
/// it implements, or a union that it is a member of.
pub proof fn lemma_applies(scope: Scope, ty: Seq<char>)
    ensures
        collect::fragment_applies(scope.schema, scope.object_name, scope.object, ty) <==> applies(
            scope,
            ty,
        ),
{
}

/// Whether a selection leads to a field, for the object of the scope, through at most `depth` named
/// fragments within each other.
pub open spec fn leads_to(scope: Scope, depth: nat, selection: Selection, found: Field) -> bool
    decreases depth, selection,
{
    &&& !told_to_leave_out(scope.variables, selection)
    &&& match selection {
        Selection::Field(field) => found == field,
        Selection::InlineFragment(inline) => {
            &&& inline.type_condition matches Some(condition) ==> applies(scope, condition@)
            &&& some_leads_to(scope, depth, inline.selection_set.selections@, found)
        },
        Selection::FragmentSpread(spread) => {
            &&& depth > 0
            &&& scope.fragments.contains_key(spread.fragment_name@)
            &&& applies(scope, scope.fragments[spread.fragment_name@].selection_set.ty@)
            &&& some_leads_to(
                scope,
                (depth - 1) as nat,
                scope.fragments[spread.fragment_name@].selection_set.selections@,
                found,
            )
        },
    }
}

/// Whether one of the selections leads to a field.
pub open spec fn some_leads_to(
    scope: Scope,
    depth: nat,
    selections: Seq<Selection>,
    found: Field,
) -> bool
    decreases depth, selections,
{
    exists|i: int|
        0 <= i < selections.len() && leads_to(scope, depth, #[trigger] selections[i], found)
}

/// Whether the selections lead to a field for the object of the scope.
pub open spec fn reaches(scope: Scope, selections: Seq<Selection>, found: Field) -> bool {
    exists|depth: nat| #[trigger] some_leads_to(scope, depth, selections, found)
}

/// Every collected field is one that the selections lead to.
proof fn lemma_collected_is_led_to(
    scope: Scope,
    visited: Set<Seq<char>>,
    work: Seq<Selection>,
    k: int,
) -> (at: (int, nat))
    requires
        scope.fragments.dom().finite(),
        0 <= k < collect::collect(scope, visited, work).fields.len(),
    ensures
        0 <= at.0 < work.len(),
        leads_to(
            scope,
            at.1,
            work[at.0],
            collect::collect(scope, visited, work).fields[k],
        ),
    decreases names::unseen(scope.fragments, visited), executable::selections_size(work),
{
    let found = collect::collect(scope, visited, work).fields[k];
    if work.len() == 0 {
        assert(collect::collect(scope, visited, work).fields.len() == 0);
        (0, 0)
    } else {
        let rest = work.skip(1);
        executable::lemma_first_size(work);
        lemma_left_out(work[0], scope.variables);
        if collect::left_out(work[0], scope.variables) {
            let at = lemma_collected_is_led_to(scope, visited, rest, k);
            (at.0 + 1, at.1)
        } else {
            match work[0] {
                Selection::Field(field) => if k == 0 {
                    (0, 0)
                } else {
                    let at = lemma_collected_is_led_to(scope, visited, rest, k - 1);
                    (at.0 + 1, at.1)
                },
                Selection::InlineFragment(inline) => {
                    let opened = inline.selection_set.selections@;
                    if let Some(condition) = inline.type_condition {
                        lemma_applies(scope, condition@);
                    }
                    executable::lemma_selections_size(opened, rest);
                    if inline.type_condition matches Some(condition) && !applies(
                        scope,
                        condition@,
                    ) {
                        let at = lemma_collected_is_led_to(scope, visited, rest, k);
                        (at.0 + 1, at.1)
                    } else {
                        let at = lemma_collected_is_led_to(scope, visited, opened + rest, k);
                        if at.0 < opened.len() {
                            assert((opened + rest)[at.0] == opened[at.0]);
                            assert(some_leads_to(scope, at.1, opened, found));
                            (0, at.1)
                        } else {
                            assert((opened + rest)[at.0] == work[at.0 - opened.len() + 1]);
                            (at.0 - opened.len() + 1, at.1)
                        }
                    }
                },
                Selection::FragmentSpread(spread) => {
                    let name = spread.fragment_name@;
                    names::lemma_unseen_insert(scope.fragments, visited, name);
                    if visited.contains(name) {
                        let at = lemma_collected_is_led_to(scope, visited, rest, k);
                        (at.0 + 1, at.1)
                    } else {
                        let fragment = scope.fragments[name];
                        let opened = fragment.selection_set.selections@;
                        lemma_applies(scope, fragment.selection_set.ty@);
                        if scope.fragments.contains_key(name) && applies(
                            scope,
                            fragment.selection_set.ty@,
                        ) {
                            let at = lemma_collected_is_led_to(
                                scope,
                                visited.insert(name),
                                opened + rest,
                                k,
                            );
                            if at.0 < opened.len() {
                                assert((opened + rest)[at.0] == opened[at.0]);
                                assert(some_leads_to(scope, at.1, opened, found));
                                (0, at.1 + 1)
                            } else {
                                assert((opened + rest)[at.0] == work[at.0 - opened.len() + 1]);
                                (at.0 - opened.len() + 1, at.1)
                            }
                        } else {
                            let at = lemma_collected_is_led_to(
                                scope,
                                visited.insert(name),
                                rest,
                                k,
                            );
                            (at.0 + 1, at.1)
                        }
                    }
                },
            }
        }
    }
}

/// Whether what was collected holds the fields of a selection, and has met the fragments it spreads,
/// as far as the selection is not left out and applies.
spec fn covers(scope: Scope, result: Collection, selection: Selection) -> bool
    decreases selection,
{
    told_to_leave_out(scope.variables, selection) || match selection {
        Selection::Field(field) => result.fields.contains(field),
        Selection::InlineFragment(inline) => (inline.type_condition matches Some(condition)
            && !applies(scope, condition@)) || covers_all(
            scope,
            result,
            inline.selection_set.selections@,
        ),
        Selection::FragmentSpread(spread) => result.visited.contains(spread.fragment_name@),
    }
}

spec fn covers_all(scope: Scope, result: Collection, selections: Seq<Selection>) -> bool
    decreases selections,
{
    forall|i: int| 0 <= i < selections.len() ==> covers(scope, result, #[trigger] selections[i])
}

spec fn grows_to(less: Collection, more: Collection) -> bool {
    &&& forall|field: Field| #[trigger] less.fields.contains(field) ==> more.fields.contains(field)
    &&& less.visited.subset_of(more.visited)
}

proof fn lemma_covers_more(scope: Scope, less: Collection, more: Collection, selection: Selection)
    requires
        grows_to(less, more),
        covers(scope, less, selection),
    ensures
        covers(scope, more, selection),
    decreases selection,
{
    if let Selection::InlineFragment(inline) = selection {
        let selections = inline.selection_set.selections@;
        if covers_all(scope, less, selections) {
            assert forall|i: int| 0 <= i < selections.len() implies covers(
                scope,
                more,
                #[trigger] selections[i],
            ) by {
                lemma_covers_more(scope, less, more, selections[i]);
            }
        }
    }
}

/// Whether a visited fragment that applies is covered, where it was not visited before.
spec fn fragment_covered(
    scope: Scope,
    visited: Set<Seq<char>>,
    result: Collection,
    name: Seq<char>,
) -> bool {
    result.visited.contains(name) && !visited.contains(name) && scope.fragments.contains_key(name)
        && applies(scope, scope.fragments[name].selection_set.ty@) ==> covers_all(
        scope,
        result,
        scope.fragments[name].selection_set.selections@,
    )
}

spec fn covers_work(
    scope: Scope,
    visited: Set<Seq<char>>,
    work: Seq<Selection>,
    result: Collection,
) -> bool {
    &&& covers_all(scope, result, work)
    &&& forall|name: Seq<char>| #[trigger] fragment_covered(scope, visited, result, name)
}

proof fn lemma_collect_covers(scope: Scope, visited: Set<Seq<char>>, work: Seq<Selection>)
    requires
        scope.fragments.dom().finite(),
    ensures
        covers_work(scope, visited, work, collect::collect(scope, visited, work)),
    decreases names::unseen(scope.fragments, visited), executable::selections_size(work),
{
    let result = collect::collect(scope, visited, work);
    let none = Seq::<Selection>::empty();
    if work.len() == 0 {
        assert(result.visited == visited);
    } else {
        let rest = work.skip(1);
        executable::lemma_first_size(work);
        lemma_left_out(work[0], scope.variables);
        if collect::left_out(work[0], scope.variables) {
            lemma_collect_covers(scope, visited, rest);
        } else {
            match work[0] {
                Selection::Field(field) => {
                    lemma_collect_covers(scope, visited, rest);
                    let after = collect::collect(scope, visited, rest);
                    assert(result.fields[0] == field);
                    assert forall|other: Field| #[trigger] after.fields.contains(other) implies
                        result.fields.contains(other) by {
                        let j = choose|j: int|
                            0 <= j < after.fields.len() && after.fields[j] == other;
                        assert(result.fields[j + 1] == other);
                    }
                    assert(grows_to(after, result));
                    assert forall|i: int| 0 <= i < rest.len() implies covers(
                        scope,
                        result,
                        #[trigger] rest[i],
                    ) by {
                        lemma_covers_more(scope, after, result, rest[i]);
                    }
                    assert forall|name: Seq<char>| #[trigger]
                        fragment_covered(scope, visited, result, name) by {
                        assert(fragment_covered(scope, visited, after, name));
                        let selections = scope.fragments[name].selection_set.selections@;
                        if covers_all(scope, after, selections) {
                            assert forall|i: int| 0 <= i < selections.len() implies covers(
                                scope,
                                result,
                                #[trigger] selections[i],
                            ) by {
                                lemma_covers_more(scope, after, result, selections[i]);
                            }
                        }
                    }
                },
                Selection::InlineFragment(inline) => {
                    let opened = inline.selection_set.selections@;
                    if let Some(condition) = inline.type_condition {
                        lemma_applies(scope, condition@);
                    }
                    executable::lemma_selections_size(opened, rest);
                    if inline.type_condition matches Some(condition) && !applies(
                        scope,
                        condition@,
                    ) {
                        lemma_collect_covers(scope, visited, rest);
                    } else {
                        lemma_collect_covers(scope, visited, opened + rest);
                        lemma_both_covered(scope, result, opened, rest);
                    }
                },
                Selection::FragmentSpread(spread) => {
                    let name = spread.fragment_name@;
                    names::lemma_unseen_insert(scope.fragments, visited, name);
                    if visited.contains(name) {
                        lemma_collect_covers(scope, visited, rest);
                        collect::lemma_collect_concat(scope, visited, rest, none);
                    } else {
                        let fragment = scope.fragments[name];
                        let opened = fragment.selection_set.selections@;
                        let met = visited.insert(name);
                        lemma_applies(scope, fragment.selection_set.ty@);
                        if scope.fragments.contains_key(name) && applies(
                            scope,
                            fragment.selection_set.ty@,
                        ) {
                            lemma_collect_covers(scope, met, opened + rest);
                            collect::lemma_collect_concat(scope, met, opened + rest, none);
                            lemma_both_covered(scope, result, opened, rest);
                        } else {
                            lemma_collect_covers(scope, met, rest);
                            collect::lemma_collect_concat(scope, met, rest, none);
                        }
                        assert forall|other: Seq<char>| #[trigger]
                            fragment_covered(scope, visited, result, other) by {
                            assert(fragment_covered(scope, met, result, other));
                        }
                    }
                    assert(result.visited.contains(name));
                },
            }
        }
        assert(covers(scope, result, work[0]));
        assert forall|i: int| 0 <= i < work.len() implies covers(
            scope,
            result,
            #[trigger] work[i],
        ) by {
            if i > 0 {
                assert(rest[i - 1] == work[i]);
            }
        }
    }
}

proof fn lemma_both_covered(
    scope: Scope,
    result: Collection,
    first: Seq<Selection>,
    second: Seq<Selection>,
)
    requires
        covers_all(scope, result, first + second),
    ensures
        covers_all(scope, result, first),
        covers_all(scope, result, second),
{
    let all = first + second;
    assert forall|i: int| 0 <= i < first.len() implies covers(
        scope,
        result,
        #[trigger] first[i],
    ) by {
        assert(all[i] == first[i]);
    }
    assert forall|i: int| 0 <= i < second.len() implies covers(
        scope,
        result,
        #[trigger] second[i],
    ) by {
        assert(all[first.len() + i] == second[i]);
    }
}

proof fn lemma_led_to_is_covered(
    scope: Scope,
    work: Seq<Selection>,
    result: Collection,
    depth: nat,
    selection: Selection,
    found: Field,
)
    requires
        covers_work(scope, Set::empty(), work, result),
        covers(scope, result, selection),
        leads_to(scope, depth, selection, found),
    ensures
        result.fields.contains(found),
    decreases depth, selection,
{
    match selection {
        Selection::Field(field) => {},
        Selection::InlineFragment(inline) => {
            let selections = inline.selection_set.selections@;
            let i = choose|i: int|
                0 <= i < selections.len() && leads_to(
                    scope,
                    depth,
                    #[trigger] selections[i],
                    found,
                );
            lemma_led_to_is_covered(scope, work, result, depth, selections[i], found);
        },
        Selection::FragmentSpread(spread) => {
            let name = spread.fragment_name@;
            let less = (depth - 1) as nat;
            let selections = scope.fragments[name].selection_set.selections@;
            assert(fragment_covered(scope, Set::empty(), result, name));
            let i = choose|i: int|
                0 <= i < selections.len() && leads_to(
                    scope,
                    less,
                    #[trigger] selections[i],
                    found,
                );
            lemma_led_to_is_covered(scope, work, result, less, selections[i], found);
        },
    }
}

/// Exactly the fields that the selections lead to are collected: none is left out, and none is added.
pub proof fn lemma_collected_are_reached(scope: Scope, selections: Seq<Selection>, found: Field)
    requires
        scope.fragments.dom().finite(),
    ensures
        collect::collect(scope, Set::empty(), selections).fields.contains(found) <==> reaches(
            scope,
            selections,
            found,
        ),
{
    let result = collect::collect(scope, Set::empty(), selections);
    if result.fields.contains(found) {
        let k = choose|k: int| 0 <= k < result.fields.len() && result.fields[k] == found;
        let (i, depth) = lemma_collected_is_led_to(scope, Set::empty(), selections, k);
        assert(leads_to(scope, depth, selections[i], found));
        assert(some_leads_to(scope, depth, selections, found));
    }
    if reaches(scope, selections, found) {
        let depth = choose|depth: nat| #[trigger] some_leads_to(scope, depth, selections, found);
        let i = choose|i: int|
            0 <= i < selections.len() && leads_to(scope, depth, #[trigger] selections[i], found);
        lemma_collect_covers(scope, Set::empty(), selections);
        lemma_led_to_is_covered(scope, selections, result, depth, selections[i], found);
    }
}

/// A field that is not left out stands in what is collected where it is written, as often as it is
/// written.
pub proof fn lemma_field_in_place(
    scope: Scope,
    visited: Set<Seq<char>>,
    before: Seq<Selection>,
    field: Field,
    after: Seq<Selection>,
)
    requires
        scope.fragments.dom().finite(),
        !told_to_leave_out(scope.variables, Selection::Field(field)),
    ensures
        ({
            let first = collect::collect(scope, visited, before);
            let rest = collect::collect(scope, first.visited, after);
            let all = collect::collect(
                scope,
                visited,
                before + (seq![Selection::Field(field)] + after),
            );
            &&& all.fields == first.fields + (seq![field] + rest.fields)
            &&& all.visited == rest.visited
        }),
{
    let more = seq![Selection::Field(field)] + after;
    lemma_left_out(Selection::Field(field), scope.variables);
    collect::lemma_collect_concat(scope, visited, before, more);
    assert(more.skip(1) =~= after);
}

/// An inline fragment that is not left out and that applies, or has no type condition, selects what
/// its selections would select in its place. One that does not apply selects nothing.
pub proof fn lemma_inline_in_place(
    scope: Scope,
    visited: Set<Seq<char>>,
    before: Seq<Selection>,
    inline: InlineFragment,
    after: Seq<Selection>,
)
    requires
        scope.fragments.dom().finite(),
        !told_to_leave_out(scope.variables, Selection::InlineFragment(inline)),
    ensures
        collect::collect(
            scope,
            visited,
            before + (seq![Selection::InlineFragment(inline)] + after),
        ) == collect::collect(
            scope,
            visited,
            before + (if inline.type_condition is None || applies(
                scope,
                inline.type_condition->0@,
            ) {
                inline.selection_set.selections@ + after
            } else {
                after
            }),
        ),
{
    let closed = seq![Selection::InlineFragment(inline)] + after;
    let opened = inline.selection_set.selections@ + after;
    let met = collect::collect(scope, visited, before).visited;
    lemma_left_out(Selection::InlineFragment(inline), scope.variables);
    if let Some(condition) = inline.type_condition {
        lemma_applies(scope, condition@);
    }
    assert(closed.skip(1) =~= after);
    collect::lemma_collect_concat(scope, visited, before, closed);
    collect::lemma_collect_concat(scope, visited, before, opened);
    collect::lemma_collect_concat(scope, visited, before, after);
}

/// The first spread of a named fragment that is not left out selects what the selections of the
/// fragment would select in its place, where the fragment is there and applies, and nothing where it
/// does not.
pub proof fn lemma_spread_in_place(
    scope: Scope,
    visited: Set<Seq<char>>,
    before: Seq<Selection>,
    spread: FragmentSpread,
    after: Seq<Selection>,
)
    requires
        scope.fragments.dom().finite(),
        !told_to_leave_out(scope.variables, Selection::FragmentSpread(spread)),
        !collect::collect(scope, visited, before).visited.contains(spread.fragment_name@),
    ensures
        ({
            let name = spread.fragment_name@;
            let first = collect::collect(scope, visited, before);
            let rest = collect::collect(
                scope,
                first.visited.insert(name),
                if scope.fragments.contains_key(name) && applies(
                    scope,
                    scope.fragments[name].selection_set.ty@,
                ) {
                    scope.fragments[name].selection_set.selections@ + after
                } else {
                    after
                },
            );
            let all = collect::collect(
                scope,
                visited,
                before + (seq![Selection::FragmentSpread(spread)] + after),
            );
            &&& all.fields == first.fields + rest.fields
            &&& all.visited == rest.visited
        }),
{
    let more = seq![Selection::FragmentSpread(spread)] + after;
    lemma_left_out(Selection::FragmentSpread(spread), scope.variables);
    lemma_applies(scope, scope.fragments[spread.fragment_name@].selection_set.ty@);
    collect::lemma_collect_concat(scope, visited, before, more);
    assert(more.skip(1) =~= after);
}

} // verus!
