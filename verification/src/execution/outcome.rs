//! What the response of an object holds, and which errors come with it, said of the values that the
//! resolver and the coercion give.
use vstd::prelude::*;

use crate::ast::{FieldDefinition, Name, Type};
use crate::execution::collect;
use crate::execution::collect::Scope;
use crate::execution::engine;
use crate::execution::engine::{
    Coercion, ExecutionMode, GroupStep, PropagateNull, Resolver, ResolverError, Step,
};
use crate::execution::error;
use crate::execution::error::{
    GraphQLError, LinkedPath, LinkedPathElement, ResponseDataPathElement,
};
use crate::execution::executable::{ExecutableDocument, Field, Selection};
use crate::execution::json::{JsonMap, JsonValue, JsonView};
use crate::execution::reach;
use crate::grouping;
use crate::schema::{ObjectType, Schema};

verus! {

/// What the fields of an object are executed with.
pub struct Request<'a, O, C> {
    pub coercion: &'a C,
    pub schema: &'a Schema,
    pub document: &'a ExecutableDocument,
    pub variable_values: &'a JsonMap,
    pub mode: ExecutionMode,
    pub object_value: &'a O,
}

/// Whether a type does not admit null at its outermost level.
pub open spec fn is_required(ty: Type) -> bool {
    ty is NonNullNamed || ty is NonNullList
}

/// Whether the coercion may give `step` for the arguments of the first of the fields.
pub open spec fn coerces<O: Resolver, C: Coercion<O>>(
    request: Request<'_, O, C>,
    path: LinkedPath<'_>,
    field_def: &FieldDefinition,
    fields: &[&Field],
    step: Step<JsonMap>,
) -> bool {
    call_ensures(
        C::coerce_argument_values,
        (
            request.coercion,
            request.schema,
            request.document,
            request.variable_values,
            path,
            field_def,
            fields@[0],
        ),
        step,
    )
}

/// Whether the object may give `resolved` for the first of the fields with the given arguments.
pub open spec fn resolves<O: Resolver, C: Coercion<O>>(
    request: Request<'_, O, C>,
    fields: &[&Field],
    argument_values: JsonMap,
    resolved: Result<O::Resolved, ResolverError>,
) -> bool {
    call_ensures(
        O::resolve_field,
        (request.object_value, &fields@[0].name, &argument_values),
        resolved,
    )
}

/// Whether the coercion may give `step` for what the object gave, at the type that the first of the
/// fields has.
pub open spec fn completes<O: Resolver, C: Coercion<O>>(
    request: Request<'_, O, C>,
    path: LinkedPath<'_>,
    fields: &[&Field],
    resolved: O::Resolved,
    step: Step<JsonValue>,
) -> bool {
    call_ensures(
        C::complete_value,
        (
            request.coercion,
            request.schema,
            request.document,
            request.variable_values,
            path,
            request.mode,
            &fields@[0].definition.ty,
            resolved,
            fields,
        ),
        step,
    )
}

/// Whether executing the fields may add the errors `added` and give `result`.
pub open spec fn may_give<O: Resolver, C: Coercion<O>>(
    request: Request<'_, O, C>,
    path: LinkedPath<'_>,
    field_def: &FieldDefinition,
    fields: &[&Field],
    added: Seq<GraphQLError>,
    result: Result<JsonValue, PropagateNull>,
) -> bool {
    engine::field_outcome(
        request.coercion,
        request.schema,
        request.document,
        request.variable_values,
        path,
        request.mode,
        request.object_value,
        field_def,
        fields,
        added,
        result,
    )
}

/// What happened while a field was executed: what came of its arguments, what the object gave, and
/// what that was completed to. The later parts count only where the earlier ones succeeded.
pub struct Course<O: Resolver> {
    pub arguments: Step<JsonMap>,
    pub resolved: Result<O::Resolved, ResolverError>,
    pub step: Step<JsonValue>,
}

/// Whether a field without a value gives what its type admits: null, or nothing but the null that
/// propagates.
pub open spec fn is_missing(ty: Type, result: Result<JsonValue, PropagateNull>) -> bool {
    if is_required(ty) {
        result is Err
    } else {
        result == Ok::<JsonValue, PropagateNull>(JsonValue::Null)
    }
}

/// Whether an error says that the resolver failed with the given message, at the given path and at
/// the name of the field.
pub open spec fn is_resolver_error(
    document: ExecutableDocument,
    path: LinkedPath<'_>,
    field: Field,
    message: Seq<char>,
    failure: GraphQLError,
) -> bool {
    &&& failure.message@ == "resolver error: "@ + message
    &&& failure.path@ == error::path_elements(path)
    &&& failure.extensions@.len() == 0
    &&& failure.locations@ == (match document.sources.position_of(field.name_location) {
        Some(position) => seq![position],
        None => Seq::empty(),
    })
}

/// Executing a field goes like this. Its arguments are coerced; without values it has none itself.
/// Otherwise the object is asked for it; if that fails, the failure is an error and the field has no
/// value. Otherwise what the object gave is completed, and the field has the value that comes of it,
/// if any. All errors on the way are added in this order. A field without a value is null where its
/// type admits it, and otherwise lets null propagate.
pub proof fn lemma_field_course<O: Resolver, C: Coercion<O>>(
    request: Request<'_, O, C>,
    path: LinkedPath<'_>,
    field_def: &FieldDefinition,
    fields: &[&Field],
    added: Seq<GraphQLError>,
    result: Result<JsonValue, PropagateNull>,
) -> (course: Course<O>)
    requires
        may_give(request, path, field_def, fields, added, result),
    ensures
        coerces(request, path, field_def, fields, course.arguments),
        course.arguments.value is Err ==> {
            &&& added == course.arguments.errors@
            &&& is_missing(field_def.ty, result)
        },
        course.arguments.value is Ok ==> resolves(
            request,
            fields,
            course.arguments.value->Ok_0,
            course.resolved,
        ),
        course.arguments.value is Ok && course.resolved is Err ==> {
            &&& added.len() == course.arguments.errors@.len() + 1
            &&& added.drop_last() == course.arguments.errors@
            &&& is_resolver_error(
                *request.document,
                path,
                *fields@[0],
                course.resolved->Err_0.message@,
                added.last(),
            )
            &&& is_missing(field_def.ty, result)
        },
        course.arguments.value is Ok && course.resolved is Ok ==> {
            &&& completes(request, path, fields, course.resolved->Ok_0, course.step)
            &&& added == course.arguments.errors@ + course.step.errors@
            &&& course.step.value is Ok ==> result == course.step.value
            &&& course.step.value is Err ==> is_missing(field_def.ty, result)
        },
{
    let arguments = choose|arguments: Step<JsonMap>|
        {
            &&& #[trigger] call_ensures(
                C::coerce_argument_values,
                (
                    request.coercion,
                    request.schema,
                    request.document,
                    request.variable_values,
                    path,
                    field_def,
                    fields@[0],
                ),
                arguments,
            )
            &&& match arguments.value {
                Err(_) => {
                    &&& added == arguments.errors@
                    &&& result == engine::nullified(field_def.ty, Err(PropagateNull))
                },
                Ok(argument_values) => exists|completed: Result<Step<JsonValue>, ResolverError>|
                    {
                        &&& #[trigger] engine::resolves_to(
                            request.coercion,
                            request.schema,
                            request.document,
                            request.variable_values,
                            path,
                            request.mode,
                            request.object_value,
                            fields,
                            argument_values,
                            completed,
                        )
                        &&& match completed {
                            Ok(step) => {
                                &&& added == arguments.errors@ + step.errors@
                                &&& result == engine::nullified(field_def.ty, step.value)
                            },
                            Err(error) => {
                                &&& added.len() == arguments.errors@.len() + 1
                                &&& added.drop_last() == arguments.errors@
                                &&& engine::resolver_failure(
                                    *request.document,
                                    path,
                                    *fields@[0],
                                    error.message@,
                                    added.last(),
                                )
                                &&& result == engine::nullified(field_def.ty, Err(PropagateNull))
                            },
                        }
                    },
            }
        };
    if arguments.value is Err {
        Course { arguments, resolved: arbitrary(), step: arbitrary() }
    } else {
        let argument_values = arguments.value->Ok_0;
        let completed = choose|completed: Result<Step<JsonValue>, ResolverError>|
            {
                &&& #[trigger] engine::resolves_to(
                    request.coercion,
                    request.schema,
                    request.document,
                    request.variable_values,
                    path,
                    request.mode,
                    request.object_value,
                    fields,
                    argument_values,
                    completed,
                )
                &&& match completed {
                    Ok(step) => {
                        &&& added == arguments.errors@ + step.errors@
                        &&& result == engine::nullified(field_def.ty, step.value)
                    },
                    Err(error) => {
                        &&& added.len() == arguments.errors@.len() + 1
                        &&& added.drop_last() == arguments.errors@
                        &&& engine::resolver_failure(
                            *request.document,
                            path,
                            *fields@[0],
                            error.message@,
                            added.last(),
                        )
                        &&& result == engine::nullified(field_def.ty, Err(PropagateNull))
                    },
                }
            };
        let resolved = choose|resolved: Result<O::Resolved, ResolverError>|
            {
                &&& #[trigger] call_ensures(
                    O::resolve_field,
                    (request.object_value, &fields@[0].name, &argument_values),
                    resolved,
                )
                &&& match resolved {
                    Ok(value) => completed is Ok && call_ensures(
                        C::complete_value,
                        (
                            request.coercion,
                            request.schema,
                            request.document,
                            request.variable_values,
                            path,
                            request.mode,
                            &fields@[0].definition.ty,
                            value,
                            fields,
                        ),
                        completed->Ok_0,
                    ),
                    Err(error) => completed == Err::<Step<JsonValue>, ResolverError>(error),
                }
            };
        Course { arguments, resolved, step: completed->Ok_0 }
    }
}

/// Whether a value is one that the coercion completes: the arguments have values, the object gives
/// something for them, and that is completed to the value.
pub open spec fn is_completed<O: Resolver, C: Coercion<O>>(
    request: Request<'_, O, C>,
    path: LinkedPath<'_>,
    field_def: &FieldDefinition,
    fields: &[&Field],
    value: JsonValue,
) -> bool {
    exists|course: Course<O>| #[trigger]
        completes_to(request, path, field_def, fields, course, value)
}

/// Whether a field that is executed so is completed to the value.
pub open spec fn completes_to<O: Resolver, C: Coercion<O>>(
    request: Request<'_, O, C>,
    path: LinkedPath<'_>,
    field_def: &FieldDefinition,
    fields: &[&Field],
    course: Course<O>,
    value: JsonValue,
) -> bool {
    &&& coerces(request, path, field_def, fields, course.arguments)
    &&& course.arguments.value is Ok
    &&& resolves(request, fields, course.arguments.value->Ok_0, course.resolved)
    &&& course.resolved is Ok
    &&& completes(request, path, fields, course.resolved->Ok_0, course.step)
    &&& course.step.value == Ok::<JsonValue, PropagateNull>(value)
}

/// The value of a field is one that the coercion completes, or null where the type of the field
/// admits it. A field whose type does not admit null is never null in place of a failed value.
pub proof fn lemma_field_value<O: Resolver, C: Coercion<O>>(
    request: Request<'_, O, C>,
    path: LinkedPath<'_>,
    field_def: &FieldDefinition,
    fields: &[&Field],
    added: Seq<GraphQLError>,
    result: Result<JsonValue, PropagateNull>,
)
    requires
        may_give(request, path, field_def, fields, added, result),
    ensures
        result matches Ok(value) ==> is_completed(request, path, field_def, fields, value) || (
        value is Null && !is_required(field_def.ty)),
        result is Err ==> is_required(field_def.ty),
{
    let course = lemma_field_course(request, path, field_def, fields, added, result);
    if let Ok(value) = result {
        if course.arguments.value is Ok && course.resolved is Ok && course.step.value is Ok {
            assert(completes_to(request, path, field_def, fields, course, value));
        }
    }
}

/// Where coercing the arguments, resolving the field or completing its value gives no value, a field
/// whose type does not admit null lets null propagate.
pub proof fn lemma_required_field_fails<O: Resolver, C: Coercion<O>>(
    request: Request<'_, O, C>,
    path: LinkedPath<'_>,
    field_def: &FieldDefinition,
    fields: &[&Field],
    added: Seq<GraphQLError>,
    result: Result<JsonValue, PropagateNull>,
)
    requires
        may_give(request, path, field_def, fields, added, result),
        is_required(field_def.ty),
        forall|value: JsonValue| !#[trigger] is_completed(request, path, field_def, fields, value),
    ensures
        result is Err,
{
    lemma_field_value(request, path, field_def, fields, added, result);
    if let Ok(value) = result {
        assert(!is_completed(request, path, field_def, fields, value));
    }
}

/// Whether nothing fails while the field is executed.
pub open spec fn always_succeeds<O: Resolver, C: Coercion<O>>(
    request: Request<'_, O, C>,
    path: LinkedPath<'_>,
    field_def: &FieldDefinition,
    fields: &[&Field],
) -> bool {
    &&& forall|arguments: Step<JsonMap>| #[trigger]
        coerces(request, path, field_def, fields, arguments) ==> arguments.value is Ok
    &&& forall|argument_values: JsonMap, resolved: Result<O::Resolved, ResolverError>| #[trigger]
        resolves(request, fields, argument_values, resolved) ==> resolved is Ok
    &&& forall|resolved: O::Resolved, step: Step<JsonValue>| #[trigger]
        completes(request, path, fields, resolved, step) ==> step.value is Ok
}

/// Where nothing fails, a field has the value that it is completed to.
pub proof fn lemma_field_succeeds<O: Resolver, C: Coercion<O>>(
    request: Request<'_, O, C>,
    path: LinkedPath<'_>,
    field_def: &FieldDefinition,
    fields: &[&Field],
    added: Seq<GraphQLError>,
    result: Result<JsonValue, PropagateNull>,
)
    requires
        may_give(request, path, field_def, fields, added, result),
        always_succeeds(request, path, field_def, fields),
    ensures
        result is Ok,
        is_completed(request, path, field_def, fields, result->Ok_0),
{
    let course = lemma_field_course(request, path, field_def, fields, added, result);
    assert(course.arguments.value is Ok);
    assert(course.resolved is Ok);
    assert(course.step.value is Ok);
    assert(completes_to(request, path, field_def, fields, course, result->Ok_0));
}

/// What executing selections from an object may give.
pub open spec fn may_respond<O: Resolver, C: Coercion<O>>(
    request: Request<'_, O, C>,
    path: LinkedPath<'_>,
    object_name: Seq<char>,
    object_type: &ObjectType,
    selections: Seq<Selection>,
    added: Seq<GraphQLError>,
    result: Result<JsonMap, PropagateNull>,
) -> bool {
    engine::selection_set_outcome(
        request.coercion,
        request.schema,
        request.document,
        request.variable_values,
        path,
        request.mode,
        object_name,
        object_type,
        request.object_value,
        selections,
        added,
        result,
    )
}

/// The scope of selections from an object.
pub open spec fn scope_in<O: Resolver, C: Coercion<O>>(
    request: Request<'_, O, C>,
    object_name: Seq<char>,
    object_type: &ObjectType,
) -> Scope {
    Scope {
        schema: *request.schema,
        fragments: request.document.fragments@,
        variables: request.variable_values@,
        object_name,
        object: *object_type,
    }
}

/// The response key of a field: its alias, or its name without one.
pub open spec fn shown_as(field: Field) -> Seq<char> {
    if field.alias is Some {
        field.alias->0@
    } else {
        field.name@
    }
}

/// The groups of fields that are executed hold exactly the fields that the selections lead to, each
/// under its response key. No two groups have the same key, and none is empty.
pub proof fn lemma_groups_hold(scope: Scope, selections: Seq<Selection>)
    requires
        scope.fragments.dom().finite(),
    ensures
        ({
            let groups = collect::groups_of(scope, selections);
            &&& forall|i: int, j: int|
                0 <= i < groups.len() && 0 <= j < groups[i].1.len() ==> shown_as(
                    #[trigger] groups[i].1[j],
                ) == groups[i].0 && reach::reaches(scope, selections, groups[i].1[j])
            &&& forall|found: Field| #[trigger]
                reach::reaches(scope, selections, found) ==> exists|i: int|
                    0 <= i < groups.len() && (#[trigger] groups[i]).0 == shown_as(found)
                        && groups[i].1.contains(found)
            &&& forall|i: int, j: int|
                0 <= i < j < groups.len() ==> (#[trigger] groups[i]).0 != (#[trigger] groups[j]).0
            &&& forall|i: int| 0 <= i < groups.len() ==> (#[trigger] groups[i]).1.len() > 0
        }),
{
    let groups = collect::groups_of(scope, selections);
    let found = collect::collect(scope, Set::empty(), selections).fields;
    let key = collect::by_response_key();
    collect::lemma_groups(scope, selections);
    assert forall|i: int, j: int| 0 <= i < groups.len() && 0 <= j < groups[i].1.len() implies
        shown_as(#[trigger] groups[i].1[j]) == groups[i].0 && reach::reaches(
        scope,
        selections,
        groups[i].1[j],
    ) by {
        assert(groups[i].1[j].key() == groups[i].0);
        grouping::lemma_members_in(found, key, groups[i].0);
        assert(found.contains(groups[i].1[j]));
        reach::lemma_collected_are_reached(scope, selections, groups[i].1[j]);
    }
    assert forall|field: Field| #[trigger] reach::reaches(scope, selections, field) implies exists|
        i: int,
    |
        0 <= i < groups.len() && (#[trigger] groups[i]).0 == shown_as(field)
            && groups[i].1.contains(field) by {
        reach::lemma_collected_are_reached(scope, selections, field);
        grouping::lemma_item_is_member(found, key, field);
        assert(key(field) == shown_as(field));
        let g = grouping::lemma_group_of_key(found, key, shown_as(field));
        assert(groups[g].0 == shown_as(field));
    }
}

/// The groups of fields that are executed hold each collected field as often as it is collected.
pub proof fn lemma_groups_hold_all(scope: Scope, selections: Seq<Selection>)
    ensures
        grouping::ungrouped(collect::groups_of(scope, selections)).to_multiset()
            == collect::collect(scope, Set::empty(), selections).fields.to_multiset(),
{
    grouping::lemma_grouping_partitions(
        collect::collect(scope, Set::empty(), selections).fields,
        collect::by_response_key(),
    );
}

/// The path to the field with the given response key.
pub open spec fn path_to<'a>(path: LinkedPath<'a>, key: Name) -> LinkedPathElement<'a> {
    LinkedPathElement { element: ResponseDataPathElement::Field(key), next: path }
}

/// Whether a value may stand in a response for a group of fields of the given definition: it is
/// completed, or null where the type of the field admits it.
pub open spec fn may_stand_for<O: Resolver, C: Coercion<O>>(
    request: Request<'_, O, C>,
    path: LinkedPath<'_>,
    field_def: FieldDefinition,
    group: (Seq<char>, Seq<Field>),
    value: JsonView,
) -> bool {
    (value is Null && !is_required(field_def.ty)) || exists|
        key: Name,
        fields: &[&Field],
        completed: JsonValue,
    |
        {
            &&& key@ == group.0
            &&& fields@.unref() == group.1
            &&& completed@ == value
            &&& #[trigger] is_completed(
                request,
                Some(&path_to(path, key)),
                &field_def,
                fields,
                completed,
            )
        }
}

proof fn lemma_steps<O: Resolver, C: Coercion<O>>(
    request: Request<'_, O, C>,
    path: LinkedPath<'_>,
    object_name: Seq<char>,
    object_type: &ObjectType,
    selections: Seq<Selection>,
    added: Seq<GraphQLError>,
    result: Result<JsonMap, PropagateNull>,
) -> (steps: Seq<GroupStep>)
    requires
        may_respond(request, path, object_name, object_type, selections, added, result),
    ensures
        ({
            let groups = collect::groups_of(
                scope_in(request, object_name, object_type),
                selections,
            );
            &&& engine::group_steps(
                request.coercion,
                request.schema,
                request.document,
                request.variable_values,
                path,
                request.mode,
                object_name,
                request.object_value,
                groups,
                steps,
            )
            &&& added == engine::all_errors(steps)
            &&& match result {
                Ok(response) => {
                    &&& steps.len() == groups.len()
                    &&& steps.len() > 0 ==> !engine::propagates(steps.last())
                    &&& response@ == engine::response_entries(groups, steps)
                },
                Err(_) => steps.len() > 0 && engine::propagates(steps.last()),
            }
        }),
{
    engine::lemma_steps(
        request.coercion,
        request.schema,
        request.document,
        request.variable_values,
        path,
        request.mode,
        object_name,
        object_type,
        request.object_value,
        selections,
        added,
        result,
    )
}

/// The entry of a step with a value is in the response.
proof fn lemma_entry_of_step(
    groups: Seq<(Seq<char>, Seq<Field>)>,
    steps: Seq<GroupStep>,
    i: int,
) -> (j: int)
    requires
        0 <= i < steps.len() <= groups.len(),
        steps[i].value matches Some(Ok(_)),
    ensures
        0 <= j < engine::response_entries(groups, steps).len(),
        engine::response_entries(groups, steps)[j] == (groups[i].0, steps[i].value->0->Ok_0@),
    decreases steps.len(),
{
    let before = engine::response_entries(groups, steps.drop_last());
    if i == steps.len() - 1 {
        before.len() as int
    } else {
        assert(steps.drop_last()[i] == steps[i]);
        let j = lemma_entry_of_step(groups, steps.drop_last(), i);
        assert(engine::response_entries(groups, steps)[j] == before[j]);
        j
    }
}

/// Every entry of a response is that of a step with a value.
proof fn lemma_step_of_entry(
    groups: Seq<(Seq<char>, Seq<Field>)>,
    steps: Seq<GroupStep>,
    j: int,
) -> (i: int)
    requires
        steps.len() <= groups.len(),
        0 <= j < engine::response_entries(groups, steps).len(),
    ensures
        0 <= i < steps.len(),
        steps[i].value matches Some(Ok(_)),
        engine::response_entries(groups, steps)[j] == (groups[i].0, steps[i].value->0->Ok_0@),
    decreases steps.len(),
{
    let before = engine::response_entries(groups, steps.drop_last());
    if j < before.len() {
        let i = lemma_step_of_entry(groups, steps.drop_last(), j);
        assert(steps.drop_last()[i] == steps[i]);
        i
    } else {
        steps.len() - 1
    }
}

proof fn lemma_no_step_propagates(steps: Seq<GroupStep>, i: int)
    requires
        0 <= i < steps.len(),
        forall|j: int| 0 <= j < steps.len() - 1 ==> !engine::propagates(#[trigger] steps[j]),
        !engine::propagates(steps.last()),
    ensures
        !(steps[i].value matches Some(Err(_))),
{
    assert(!engine::propagates(steps[i])) by {
        if i == steps.len() - 1 {
            assert(steps[i] == steps.last());
        }
    }
}

/// A response has an entry for every group whose field the type of the object has: the name of that
/// type for `__typename`, and for any other field a value that may stand for it. In particular a
/// field whose type does not admit null stands there with a completed value.
pub proof fn lemma_response_holds<O: Resolver, C: Coercion<O>>(
    request: Request<'_, O, C>,
    path: LinkedPath<'_>,
    object_name: Seq<char>,
    object_type: &ObjectType,
    selections: Seq<Selection>,
    added: Seq<GraphQLError>,
    response: JsonMap,
    i: int,
) -> (j: int)
    requires
        may_respond(request, path, object_name, object_type, selections, added, Ok(response)),
        ({
            let groups = collect::groups_of(
                scope_in(request, object_name, object_type),
                selections,
            );
            &&& 0 <= i < groups.len()
            &&& request.schema.field_of(object_name, groups[i].1[0].name@) is Some
        }),
    ensures
        ({
            let groups = collect::groups_of(
                scope_in(request, object_name, object_type),
                selections,
            );
            let group = groups[i];
            &&& 0 <= j < response@.len()
            &&& response@[j].0 == group.0
            &&& group.1[0].name@ == "__typename"@ ==> response@[j].1 == JsonView::String(
                object_name,
            )
            &&& group.1[0].name@ != "__typename"@ ==> may_stand_for(
                request,
                path,
                request.schema.field_of(object_name, group.1[0].name@)->0,
                group,
                response@[j].1,
            )
        }),
{
    let groups = collect::groups_of(scope_in(request, object_name, object_type), selections);
    let group = groups[i];
    let steps = lemma_steps(
        request,
        path,
        object_name,
        object_type,
        selections,
        added,
        Ok(response),
    );
    let step = steps[i];
    assert(engine::group_outcome(
        request.coercion,
        request.schema,
        request.document,
        request.variable_values,
        path,
        request.mode,
        object_name,
        request.object_value,
        groups[i],
        steps[i],
    ));
    lemma_no_step_propagates(steps, i);
    let field_def = request.schema.field_of(object_name, group.1[0].name@)->0;
    let value = step.value->0->Ok_0;
    let j = lemma_entry_of_step(groups, steps, i);
    if group.1[0].name@ != "__typename"@ {
        let (key, fields) = choose|key: Name, fields: &[&Field]|
            {
                &&& key@ == group.0
                &&& fields@.unref() == group.1
                &&& #[trigger] engine::field_outcome(
                    request.coercion,
                    request.schema,
                    request.document,
                    request.variable_values,
                    Some(
                        &LinkedPathElement {
                            element: ResponseDataPathElement::Field(key),
                            next: path,
                        },
                    ),
                    request.mode,
                    request.object_value,
                    &field_def,
                    fields,
                    step.errors,
                    step.value->0,
                )
            };
        let below = path_to(path, key);
        lemma_field_value(request, Some(&below), &field_def, fields, step.errors, step.value->0);
        if is_completed(request, Some(&below), &field_def, fields, value) {
            assert(value@ == response@[j].1);
        }
    }
    j
}

/// A response has entries only for groups whose field the type of the object has.
pub proof fn lemma_response_holds_only<O: Resolver, C: Coercion<O>>(
    request: Request<'_, O, C>,
    path: LinkedPath<'_>,
    object_name: Seq<char>,
    object_type: &ObjectType,
    selections: Seq<Selection>,
    added: Seq<GraphQLError>,
    response: JsonMap,
    j: int,
) -> (i: int)
    requires
        may_respond(request, path, object_name, object_type, selections, added, Ok(response)),
        0 <= j < response@.len(),
    ensures
        ({
            let groups = collect::groups_of(
                scope_in(request, object_name, object_type),
                selections,
            );
            &&& 0 <= i < groups.len()
            &&& groups[i].0 == response@[j].0
            &&& request.schema.field_of(object_name, groups[i].1[0].name@) is Some
        }),
{
    let groups = collect::groups_of(scope_in(request, object_name, object_type), selections);
    let steps = lemma_steps(
        request,
        path,
        object_name,
        object_type,
        selections,
        added,
        Ok(response),
    );
    let i = lemma_step_of_entry(groups, steps, j);
    assert(engine::group_outcome(
        request.coercion,
        request.schema,
        request.document,
        request.variable_values,
        path,
        request.mode,
        object_name,
        request.object_value,
        groups[i],
        steps[i],
    ));
    i
}

/// Where a field whose type does not admit null has no value, null propagates out of the selection
/// set that selects it.
pub proof fn lemma_required_field_fails_set<O: Resolver, C: Coercion<O>>(
    request: Request<'_, O, C>,
    path: LinkedPath<'_>,
    object_name: Seq<char>,
    object_type: &ObjectType,
    selections: Seq<Selection>,
    added: Seq<GraphQLError>,
    result: Result<JsonMap, PropagateNull>,
    i: int,
)
    requires
        may_respond(request, path, object_name, object_type, selections, added, result),
        ({
            let groups = collect::groups_of(
                scope_in(request, object_name, object_type),
                selections,
            );
            let field_def = request.schema.field_of(object_name, groups[i].1[0].name@);
            &&& 0 <= i < groups.len()
            &&& field_def is Some
            &&& groups[i].1[0].name@ != "__typename"@
            &&& is_required(field_def->0.ty)
            &&& forall|key: Name, fields: &[&Field], value: JsonValue|
                key@ == groups[i].0 && fields@.unref() == groups[i].1 ==> !#[trigger] is_completed(
                    request,
                    Some(&path_to(path, key)),
                    &field_def->0,
                    fields,
                    value,
                )
        }),
    ensures
        result is Err,
{
    if let Ok(response) = result {
        let j = lemma_response_holds(
            request,
            path,
            object_name,
            object_type,
            selections,
            added,
            response,
            i,
        );
    }
}

proof fn lemma_errors_of_step(steps: Seq<GroupStep>, i: int, k: int)
    requires
        0 <= i < steps.len(),
        0 <= k < steps[i].errors.len(),
    ensures
        engine::all_errors(steps).contains(steps[i].errors[k]),
    decreases steps.len(),
{
    let before = engine::all_errors(steps.drop_last());
    let all = engine::all_errors(steps);
    if i == steps.len() - 1 {
        assert(all[before.len() + k] == steps[i].errors[k]);
    } else {
        assert(steps.drop_last()[i] == steps[i]);
        lemma_errors_of_step(steps.drop_last(), i, k);
        let j = choose|j: int| 0 <= j < before.len() && before[j] == steps[i].errors[k];
        assert(all[j] == steps[i].errors[k]);
    }
}

/// Where the object always fails to give a field, whose arguments have values, the failure is among
/// the errors, with the path to the field in it.
pub proof fn lemma_failures_are_reported<O: Resolver, C: Coercion<O>>(
    request: Request<'_, O, C>,
    path: LinkedPath<'_>,
    object_name: Seq<char>,
    object_type: &ObjectType,
    selections: Seq<Selection>,
    added: Seq<GraphQLError>,
    response: JsonMap,
    i: int,
)
    requires
        may_respond(request, path, object_name, object_type, selections, added, Ok(response)),
        ({
            let groups = collect::groups_of(
                scope_in(request, object_name, object_type),
                selections,
            );
            let field_def = request.schema.field_of(object_name, groups[i].1[0].name@);
            &&& 0 <= i < groups.len()
            &&& field_def is Some
            &&& groups[i].1[0].name@ != "__typename"@
            &&& forall|key: Name, fields: &[&Field], arguments: Step<JsonMap>| #[trigger]
                coerces(request, Some(&path_to(path, key)), &field_def->0, fields, arguments)
                    ==> arguments.value is Ok
            &&& forall|
                fields: &[&Field],
                argument_values: JsonMap,
                resolved: Result<O::Resolved, ResolverError>,
            |
                fields@.unref() == groups[i].1 && #[trigger] resolves(
                    request,
                    fields,
                    argument_values,
                    resolved,
                ) ==> resolved is Err
        }),
    ensures
        ({
            let groups = collect::groups_of(
                scope_in(request, object_name, object_type),
                selections,
            );
            exists|failure: GraphQLError, key: Name|
                {
                    &&& #[trigger] added.contains(failure)
                    &&& key@ == groups[i].0
                    &&& failure.path@ == #[trigger] error::path_elements(path).push(
                        ResponseDataPathElement::Field(key),
                    )
                }
        }),
{
    let groups = collect::groups_of(scope_in(request, object_name, object_type), selections);
    let group = groups[i];
    let steps = lemma_steps(
        request,
        path,
        object_name,
        object_type,
        selections,
        added,
        Ok(response),
    );
    let step = steps[i];
    assert(engine::group_outcome(
        request.coercion,
        request.schema,
        request.document,
        request.variable_values,
        path,
        request.mode,
        object_name,
        request.object_value,
        groups[i],
        steps[i],
    ));
    let field_def = request.schema.field_of(object_name, group.1[0].name@)->0;
    let (key, fields) = choose|key: Name, fields: &[&Field]|
        {
            &&& key@ == group.0
            &&& fields@.unref() == group.1
            &&& #[trigger] engine::field_outcome(
                request.coercion,
                request.schema,
                request.document,
                request.variable_values,
                Some(
                    &LinkedPathElement {
                        element: ResponseDataPathElement::Field(key),
                        next: path,
                    },
                ),
                request.mode,
                request.object_value,
                &field_def,
                fields,
                step.errors,
                step.value->0,
            )
        };
    let below = path_to(path, key);
    let course = lemma_field_course(
        request,
        Some(&below),
        &field_def,
        fields,
        step.errors,
        step.value->0,
    );
    assert(coerces(request, Some(&path_to(path, key)), &field_def, fields, course.arguments));
    assert(resolves(request, fields, course.arguments.value->Ok_0, course.resolved));
    let failure = step.errors.last();
    lemma_errors_of_step(steps, i, step.errors.len() - 1);
    error::lemma_path_extends(path, ResponseDataPathElement::Field(key));
    assert(added.contains(failure));
}

/// Whether a group is executed: the type of the object has its field, and the field is not the name
/// of that type.
pub open spec fn is_executed(
    schema: Schema,
    object_name: Seq<char>,
    group: (Seq<char>, Seq<Field>),
) -> bool {
    schema.field_of(object_name, group.1[0].name@) is Some && group.1[0].name@ != "__typename"@
}

/// Whether executing a group may add the errors `added` and give `result`.
pub open spec fn group_may_give<O: Resolver, C: Coercion<O>>(
    request: Request<'_, O, C>,
    path: LinkedPath<'_>,
    object_name: Seq<char>,
    group: (Seq<char>, Seq<Field>),
    added: Seq<GraphQLError>,
    result: Result<JsonValue, PropagateNull>,
) -> bool {
    exists|key: Name, fields: &[&Field]|
        {
            &&& key@ == group.0
            &&& fields@.unref() == group.1
            &&& #[trigger] may_give(
                request,
                Some(&path_to(path, key)),
                &request.schema.field_of(object_name, group.1[0].name@)->0,
                fields,
                added,
                result,
            )
        }
}

/// Which errors each group adds, and what it gives, where it is executed.
pub struct Parts {
    pub errors: Seq<Seq<GraphQLError>>,
    pub results: Seq<Result<JsonValue, PropagateNull>>,
}

proof fn lemma_all_errors(steps: Seq<GroupStep>)
    ensures
        engine::all_errors(steps) == steps.map_values(
            |step: GroupStep| step.errors,
        ).flatten_alt(),
    decreases steps.len(),
{
    let parts = steps.map_values(|step: GroupStep| step.errors);
    if steps.len() > 0 {
        lemma_all_errors(steps.drop_last());
        assert(parts.drop_last() =~= steps.drop_last().map_values(|step: GroupStep| step.errors));
    }
}

/// The errors of an execution are those of the groups in turn, and no others. A group that is not
/// executed adds none. The groups are executed until null propagates out of one of them, and null
/// propagates out of all exactly where it propagates out of the last one executed. Otherwise what
/// each executed group gives stands in the response under its key.
pub proof fn lemma_errors_by_group<O: Resolver, C: Coercion<O>>(
    request: Request<'_, O, C>,
    path: LinkedPath<'_>,
    object_name: Seq<char>,
    object_type: &ObjectType,
    selections: Seq<Selection>,
    added: Seq<GraphQLError>,
    result: Result<JsonMap, PropagateNull>,
) -> (parts: Parts)
    requires
        may_respond(request, path, object_name, object_type, selections, added, result),
    ensures
        ({
            let groups = collect::groups_of(
                scope_in(request, object_name, object_type),
                selections,
            );
            let n = parts.errors.len() as int;
            &&& parts.results.len() == n <= groups.len()
            &&& added == parts.errors.flatten()
            &&& forall|i: int|
                0 <= i < n && !is_executed(*request.schema, object_name, groups[i])
                    ==> (#[trigger] parts.errors[i]).len() == 0
            &&& forall|i: int|
                0 <= i < n && is_executed(*request.schema, object_name, groups[i])
                    ==> group_may_give(
                    request,
                    path,
                    object_name,
                    groups[i],
                    #[trigger] parts.errors[i],
                    parts.results[i],
                )
            &&& forall|i: int|
                0 <= i < n - 1 && is_executed(*request.schema, object_name, groups[i])
                    ==> #[trigger] parts.results[i] is Ok
            &&& result is Ok ==> n == groups.len() && (n > 0 && is_executed(
                *request.schema,
                object_name,
                groups[n - 1],
            ) ==> parts.results[n - 1] is Ok)
            &&& result is Err ==> n > 0 && is_executed(
                *request.schema,
                object_name,
                groups[n - 1],
            ) && parts.results[n - 1] is Err
            &&& result matches Ok(response) ==> forall|i: int|
                0 <= i < n && is_executed(*request.schema, object_name, groups[i])
                    ==> response@.contains((groups[i].0, (#[trigger] parts.results[i])->Ok_0@))
        }),
{
    let groups = collect::groups_of(scope_in(request, object_name, object_type), selections);
    let steps = lemma_steps(request, path, object_name, object_type, selections, added, result);
    let parts = Parts {
        errors: steps.map_values(|step: GroupStep| step.errors),
        results: steps.map_values(|step: GroupStep| step.value->0),
    };
    lemma_all_errors(steps);
    parts.errors.lemma_flatten_and_flatten_alt_are_equivalent();
    assert forall|i: int| 0 <= i < steps.len() implies {
        &&& !is_executed(*request.schema, object_name, groups[i]) ==> (
        #[trigger] parts.errors[i]).len() == 0 && !engine::propagates(steps[i])
        &&& is_executed(*request.schema, object_name, groups[i]) ==> steps[i].value is Some
            && group_may_give(
            request,
            path,
            object_name,
            groups[i],
            parts.errors[i],
            parts.results[i],
        )
    } by {
        let group = groups[i];
        let step = steps[i];
        assert(engine::group_outcome(
            request.coercion,
            request.schema,
            request.document,
            request.variable_values,
            path,
            request.mode,
            object_name,
            request.object_value,
            groups[i],
            steps[i],
        ));
        if is_executed(*request.schema, object_name, group) {
            let field_def = request.schema.field_of(object_name, group.1[0].name@)->0;
            let (key, fields) = choose|key: Name, fields: &[&Field]|
                {
                    &&& key@ == group.0
                    &&& fields@.unref() == group.1
                    &&& #[trigger] engine::field_outcome(
                        request.coercion,
                        request.schema,
                        request.document,
                        request.variable_values,
                        Some(
                            &LinkedPathElement {
                                element: ResponseDataPathElement::Field(key),
                                next: path,
                            },
                        ),
                        request.mode,
                        request.object_value,
                        &field_def,
                        fields,
                        step.errors,
                        step.value->0,
                    )
                };
            assert(may_give(
                request,
                Some(&path_to(path, key)),
                &request.schema.field_of(object_name, group.1[0].name@)->0,
                fields,
                step.errors,
                step.value->0,
            ));
        }
    }
    assert forall|i: int|
        0 <= i < steps.len() - 1 && is_executed(
            *request.schema,
            object_name,
            groups[i],
        ) implies #[trigger] parts.results[i] is Ok by {
        assert(parts.errors[i] == steps[i].errors);
        assert(!engine::propagates(steps[i]));
    }
    if steps.len() > 0 {
        let last = steps.len() - 1;
        assert(parts.errors[last] == steps[last].errors);
        assert(parts.results[last] == steps[last].value->0);
        assert(steps[last] == steps.last());
    }
    if let Ok(response) = result {
        assert forall|i: int|
            0 <= i < steps.len() && is_executed(
                *request.schema,
                object_name,
                groups[i],
            ) implies response@.contains((groups[i].0, (#[trigger] parts.results[i])->Ok_0@)) by {
            assert(parts.errors[i] == steps[i].errors);
            lemma_no_step_propagates(steps, i);
            let j = lemma_entry_of_step(groups, steps, i);
            assert(response@[j] == (groups[i].0, parts.results[i]->Ok_0@));
        }
    }
    parts
}

proof fn lemma_entries_in_order(
    groups: Seq<(Seq<char>, Seq<Field>)>,
    steps: Seq<GroupStep>,
    j: int,
    k: int,
) -> (at: (int, int))
    requires
        steps.len() <= groups.len(),
        0 <= j < k < engine::response_entries(groups, steps).len(),
    ensures
        0 <= at.0 < at.1 < steps.len(),
        engine::response_entries(groups, steps)[j].0 == groups[at.0].0,
        engine::response_entries(groups, steps)[k].0 == groups[at.1].0,
    decreases steps.len(),
{
    let before = engine::response_entries(groups, steps.drop_last());
    if k < before.len() {
        lemma_entries_in_order(groups, steps.drop_last(), j, k)
    } else {
        let i = lemma_step_of_entry(groups, steps.drop_last(), j);
        (i, steps.len() - 1)
    }
}

/// The entries of a response come in the order of their groups.
pub proof fn lemma_response_in_order<O: Resolver, C: Coercion<O>>(
    request: Request<'_, O, C>,
    path: LinkedPath<'_>,
    object_name: Seq<char>,
    object_type: &ObjectType,
    selections: Seq<Selection>,
    added: Seq<GraphQLError>,
    response: JsonMap,
    j: int,
    k: int,
    of_j: int,
    of_k: int,
)
    requires
        may_respond(request, path, object_name, object_type, selections, added, Ok(response)),
        0 <= j < k < response@.len(),
        ({
            let groups = collect::groups_of(
                scope_in(request, object_name, object_type),
                selections,
            );
            &&& 0 <= of_j < groups.len()
            &&& 0 <= of_k < groups.len()
            &&& groups[of_j].0 == response@[j].0
            &&& groups[of_k].0 == response@[k].0
        }),
    ensures
        of_j < of_k,
{
    let scope = scope_in(request, object_name, object_type);
    let groups = collect::groups_of(scope, selections);
    let steps = lemma_steps(
        request,
        path,
        object_name,
        object_type,
        selections,
        added,
        Ok(response),
    );
    let (at_j, at_k) = lemma_entries_in_order(groups, steps, j, k);
    collect::lemma_groups(scope, selections);
    assert(groups[at_j].0 == groups[of_j].0 && groups[at_k].0 == groups[of_k].0);
    if of_j != at_j {
        assert(groups[of_j].0 != groups[at_j].0);
    }
    if of_k != at_k {
        assert(groups[of_k].0 != groups[at_k].0);
    }
}

/// Groups come in the order in which their keys first occur among the collected fields.
pub proof fn lemma_groups_in_order(scope: Scope, selections: Seq<Selection>, i: int, j: int) -> (at: (
    int,
    int,
))
    requires
        ({
            let found = collect::collect(scope, Set::empty(), selections).fields;
            &&& 0 <= i < j < found.len()
            &&& forall|l: int|
                0 <= l < i ==> shown_as(#[trigger] found[l]) != shown_as(found[i])
            &&& forall|l: int|
                0 <= l < j ==> shown_as(#[trigger] found[l]) != shown_as(found[j])
        }),
    ensures
        ({
            let found = collect::collect(scope, Set::empty(), selections).fields;
            let groups = collect::groups_of(scope, selections);
            &&& 0 <= at.0 < at.1 < groups.len()
            &&& groups[at.0].0 == shown_as(found[i])
            &&& groups[at.1].0 == shown_as(found[j])
        }),
{
    let found = collect::collect(scope, Set::empty(), selections).fields;
    let key = collect::by_response_key();
    assert forall|l: int| 0 <= l < i implies key(#[trigger] found[l]) != key(found[i]) by {
        assert(shown_as(found[l]) != shown_as(found[i]));
    }
    assert forall|l: int| 0 <= l < j implies key(#[trigger] found[l]) != key(found[j]) by {
        assert(shown_as(found[l]) != shown_as(found[j]));
    }
    grouping::lemma_key_order(found, key, i, j)
}

} // verus!
