//! Execution of the selections from an object: one response entry for each response key.
use vstd::prelude::*;

use crate::ast::{FieldDefinition, Name, Type};
use crate::execution::collect;
use crate::execution::collect::collect_fields;
use crate::execution::error;
use crate::execution::error::{GraphQLError, LinkedPath, LinkedPathElement, ResponseDataPathElement};
use crate::execution::executable::{ExecutableDocument, Field, Selection};
use crate::execution::groups;
use crate::execution::groups::{group_at, group_count, no_groups};
use crate::execution::json;
use crate::execution::json::{JsonMap, JsonValue, JsonView};
use crate::grouping;
use crate::names::{same_text, NameSet};
use crate::schema::{ObjectType, Schema};

verus! {

/// In which order fields may be executed.
#[derive(Clone, Copy, Debug, PartialEq, Eq, Structural)]
pub enum ExecutionMode {
    /// Fields may be resolved in any order, also in parallel.
    Normal,
    /// The top-level fields of a mutation have to be executed in their order.
    Sequential,
}

/// Returned where a field error occurred at a place that cannot be null.
#[derive(Clone, Copy, Debug, PartialEq, Eq, Structural)]
pub struct PropagateNull;

/// Why a field could not be resolved.
#[derive(Debug)]
pub struct ResolverError {
    pub message: String,
}

/// What a step of execution gives: the field errors that occurred in it, in their order, and its
/// value, unless null has to propagate.
#[derive(Debug)]
pub struct Step<T> {
    pub errors: Vec<GraphQLError>,
    pub value: Result<T, PropagateNull>,
}

/// An object that fields are selected from. Nothing is known here of what its fields hold.
pub trait Resolver {
    /// What a field of the object holds.
    type Resolved;

    /// What the field with the given name holds for the given arguments.
    fn resolve_field(&self, field_name: &Name, arguments: &JsonMap) -> Result<
        Self::Resolved,
        ResolverError,
    >;
}

/// How values enter and leave the execution of a field. Nothing is known here of the values.
pub trait Coercion<O: Resolver> {
    /// The values of the arguments of a field.
    fn coerce_argument_values(
        &self,
        schema: &Schema,
        document: &ExecutableDocument,
        variable_values: &JsonMap,
        path: LinkedPath<'_>,
        field_def: &FieldDefinition,
        field: &Field,
    ) -> Step<JsonMap>;

    /// The response value for what a field holds. The selections from it are those of all of
    /// `fields`.
    fn complete_value(
        &self,
        schema: &Schema,
        document: &ExecutableDocument,
        variable_values: &JsonMap,
        path: LinkedPath<'_>,
        mode: ExecutionMode,
        ty: &Type,
        resolved: O::Resolved,
        fields: &[&Field],
    ) -> Step<JsonValue>;
}

/// The result at a place of the given type: null stands in for a missing value where the type
/// admits it.
pub open spec fn nullified(ty: Type, result: Result<JsonValue, PropagateNull>) -> Result<
    JsonValue,
    PropagateNull,
> {
    match result {
        Ok(json) => Ok(json),
        Err(_) => if ty.is_non_null() {
            Err(PropagateNull)
        } else {
            Ok(JsonValue::Null)
        },
    }
}

/// Tries to insert a propagated null, or keeps propagating it.
pub fn try_nullify(ty: &Type, result: Result<JsonValue, PropagateNull>) -> (nullable: Result<
    JsonValue,
    PropagateNull,
>)
    ensures
        nullable == nullified(*ty, result),
{
    match result {
        Ok(json) => Ok(json),
        Err(PropagateNull) => {
            if ty.is_non_null() {
                Err(PropagateNull)
            } else {
                Ok(JsonValue::Null)
            }
        },
    }
}

/// Null propagates only out of places that cannot be null, where it always does, and trying again
/// changes nothing. A value stays as it is.
pub proof fn lemma_nullified(ty: Type, result: Result<JsonValue, PropagateNull>)
    ensures
        nullified(ty, result) is Err <==> result is Err && ty.is_non_null(),
        nullified(ty, nullified(ty, result)) == nullified(ty, result),
        result is Ok ==> nullified(ty, result) == result,
        result is Err && (ty is Named || ty is List) ==> nullified(ty, result) == Ok::<
            JsonValue,
            PropagateNull,
        >(JsonValue::Null),
        result is Err && (ty is NonNullNamed || ty is NonNullList) ==> nullified(ty, result) is Err,
{
}

/// Whether `failure` says that the field at the given path could not be resolved.
pub open spec fn resolver_failure(
    document: ExecutableDocument,
    path: LinkedPath<'_>,
    field: Field,
    message: Seq<char>,
    failure: GraphQLError,
) -> bool {
    failure@ == error::error_at(
        "resolver error: "@ + message,
        error::path_elements(path),
        field.name_location,
        document.sources,
    )
}

fn resolver_error(
    document: &ExecutableDocument,
    path: LinkedPath<'_>,
    field: &Field,
    message: &str,
) -> (failure: GraphQLError)
    ensures
        resolver_failure(*document, path, *field, message@, failure),
{
    let mut text = "resolver error: ".to_owned();
    text.append(message);
    GraphQLError::field_error(text, path, field.name_location, &document.sources)
}

/// The end of a field's execution, for any way in which resolving and completing it went: adds the
/// errors that occurred, and gives null in place of a missing value where the type of the field
/// admits it.
pub fn finish_field(
    document: &ExecutableDocument,
    errors: &mut Vec<GraphQLError>,
    path: LinkedPath<'_>,
    field_def: &FieldDefinition,
    field: &Field,
    completed: Result<Step<JsonValue>, ResolverError>,
) -> (result: Result<JsonValue, PropagateNull>)
    ensures
        match completed {
            Ok(step) => {
                &&& final(errors)@ == old(errors)@ + step.errors@
                &&& result == nullified(field_def.ty, step.value)
            },
            Err(error) => {
                &&& final(errors)@.len() == old(errors)@.len() + 1
                &&& final(errors)@.drop_last() == old(errors)@
                &&& resolver_failure(
                    *document,
                    path,
                    *field,
                    error.message@,
                    final(errors)@.last(),
                )
                &&& result == nullified(field_def.ty, Err(PropagateNull))
            },
        },
{
    let value = match completed {
        Ok(step) => {
            let mut met = step.errors;
            errors.append(&mut met);
            step.value
        },
        Err(error) => {
            errors.push(resolver_error(document, path, field, error.message.as_str()));
            Err(PropagateNull)
        },
    };
    try_nullify(&field_def.ty, value)
}

/// Whether resolving and completing a field whose arguments have the given values may go as
/// `completed` says.
pub open spec fn resolves_to<O: Resolver, C: Coercion<O>>(
    coercion: &C,
    schema: &Schema,
    document: &ExecutableDocument,
    variable_values: &JsonMap,
    path: LinkedPath<'_>,
    mode: ExecutionMode,
    object_value: &O,
    fields: &[&Field],
    argument_values: JsonMap,
    completed: Result<Step<JsonValue>, ResolverError>,
) -> bool {
    exists|resolved: Result<O::Resolved, ResolverError>|
        {
            &&& #[trigger] call_ensures(
                O::resolve_field,
                (object_value, &fields@[0].name, &argument_values),
                resolved,
            )
            &&& match resolved {
                Ok(value) => completed is Ok && call_ensures(
                    C::complete_value,
                    (
                        coercion,
                        schema,
                        document,
                        variable_values,
                        path,
                        mode,
                        &fields@[0].definition.ty,
                        value,
                        fields,
                    ),
                    completed->Ok_0,
                ),
                Err(error) => completed == Err::<Step<JsonValue>, ResolverError>(error),
            }
        }
}

/// Whether executing a field may add the errors `added` and give `result`. The first of the fields
/// with the response key says which field it is and what its arguments are. Arguments that have no
/// values, a resolver that fails and a value that cannot be completed all give null, where the
/// type of the field admits it.
pub open spec fn field_outcome<O: Resolver, C: Coercion<O>>(
    coercion: &C,
    schema: &Schema,
    document: &ExecutableDocument,
    variable_values: &JsonMap,
    path: LinkedPath<'_>,
    mode: ExecutionMode,
    object_value: &O,
    field_def: &FieldDefinition,
    fields: &[&Field],
    added: Seq<GraphQLError>,
    result: Result<JsonValue, PropagateNull>,
) -> bool {
    exists|arguments: Step<JsonMap>|
        {
            &&& #[trigger] call_ensures(
                C::coerce_argument_values,
                (coercion, schema, document, variable_values, path, field_def, fields@[0]),
                arguments,
            )
            &&& match arguments.value {
                Err(_) => {
                    &&& added == arguments.errors@
                    &&& result == nullified(field_def.ty, Err(PropagateNull))
                },
                Ok(argument_values) => exists|completed: Result<Step<JsonValue>, ResolverError>|
                    {
                        &&& #[trigger] resolves_to(
                            coercion,
                            schema,
                            document,
                            variable_values,
                            path,
                            mode,
                            object_value,
                            fields,
                            argument_values,
                            completed,
                        )
                        &&& match completed {
                            Ok(step) => {
                                &&& added == arguments.errors@ + step.errors@
                                &&& result == nullified(field_def.ty, step.value)
                            },
                            Err(error) => {
                                &&& added.len() == arguments.errors@.len() + 1
                                &&& added.drop_last() == arguments.errors@
                                &&& resolver_failure(
                                    *document,
                                    path,
                                    *fields@[0],
                                    error.message@,
                                    added.last(),
                                )
                                &&& result == nullified(field_def.ty, Err(PropagateNull))
                            },
                        }
                    },
            }
        }
}

/// Null propagates out of a field only where its type is non-null.
pub proof fn lemma_field_propagates<O: Resolver, C: Coercion<O>>(
    coercion: &C,
    schema: &Schema,
    document: &ExecutableDocument,
    variable_values: &JsonMap,
    path: LinkedPath<'_>,
    mode: ExecutionMode,
    object_value: &O,
    field_def: &FieldDefinition,
    fields: &[&Field],
    added: Seq<GraphQLError>,
    result: Result<JsonValue, PropagateNull>,
)
    requires
        field_outcome(
            coercion,
            schema,
            document,
            variable_values,
            path,
            mode,
            object_value,
            field_def,
            fields,
            added,
            result,
        ),
    ensures
        result is Err ==> field_def.ty.is_non_null(),
{
}

/// Whether coercing arguments and completing values give an error wherever they give no value.
pub open spec fn reports_failures<O: Resolver, C: Coercion<O>>(coercion: &C) -> bool {
    &&& forall|
        schema: &Schema,
        document: &ExecutableDocument,
        variable_values: &JsonMap,
        path: LinkedPath<'_>,
        field_def: &FieldDefinition,
        field: &Field,
        step: Step<JsonMap>,
    | #[trigger]
        call_ensures(
            C::coerce_argument_values,
            (coercion, schema, document, variable_values, path, field_def, field),
            step,
        ) && step.value is Err ==> step.errors@.len() > 0
    &&& forall|
        schema: &Schema,
        document: &ExecutableDocument,
        variable_values: &JsonMap,
        path: LinkedPath<'_>,
        mode: ExecutionMode,
        ty: &Type,
        resolved: O::Resolved,
        fields: &[&Field],
        step: Step<JsonValue>,
    | #[trigger]
        call_ensures(
            C::complete_value,
            (coercion, schema, document, variable_values, path, mode, ty, resolved, fields),
            step,
        ) && step.value is Err ==> step.errors@.len() > 0
}

/// Null does not propagate out of a field without an error, where the steps of its execution report
/// their failures.
pub proof fn lemma_field_reports<O: Resolver, C: Coercion<O>>(
    coercion: &C,
    schema: &Schema,
    document: &ExecutableDocument,
    variable_values: &JsonMap,
    path: LinkedPath<'_>,
    mode: ExecutionMode,
    object_value: &O,
    field_def: &FieldDefinition,
    fields: &[&Field],
    added: Seq<GraphQLError>,
    result: Result<JsonValue, PropagateNull>,
)
    requires
        reports_failures::<O, C>(coercion),
        field_outcome(
            coercion,
            schema,
            document,
            variable_values,
            path,
            mode,
            object_value,
            field_def,
            fields,
            added,
            result,
        ),
    ensures
        result is Err ==> added.len() > 0,
{
}

/// Executes the field that `fields` select together, and adds the errors that occur.
pub fn execute_field<O: Resolver, C: Coercion<O>>(
    coercion: &C,
    schema: &Schema,
    document: &ExecutableDocument,
    variable_values: &JsonMap,
    errors: &mut Vec<GraphQLError>,
    path: LinkedPath<'_>,
    mode: ExecutionMode,
    object_value: &O,
    field_def: &FieldDefinition,
    fields: &[&Field],
) -> (result: Result<JsonValue, PropagateNull>)
    requires
        fields@.len() > 0,
    ensures
        exists|added: Seq<GraphQLError>|
            {
                &&& final(errors)@ == old(errors)@ + added
                &&& #[trigger] field_outcome(
                    coercion,
                    schema,
                    document,
                    variable_values,
                    path,
                    mode,
                    object_value,
                    field_def,
                    fields,
                    added,
                    result,
                )
            },
{
    let field = fields[0];
    let arguments = coercion.coerce_argument_values(
        schema,
        document,
        variable_values,
        path,
        field_def,
        field,
    );
    let mut met = arguments.errors;
    errors.append(&mut met);
    let ghost before = errors@;
    let ghost added = arguments.errors@;
    let result = match arguments.value {
        Ok(argument_values) => {
            let completed = match object_value.resolve_field(&field.name, &argument_values) {
                Ok(resolved) => Ok(
                    coercion.complete_value(
                        schema,
                        document,
                        variable_values,
                        path,
                        mode,
                        field.ty(),
                        resolved,
                        fields,
                    ),
                ),
                Err(error) => Err(error),
            };
            assert(resolves_to(
                coercion,
                schema,
                document,
                variable_values,
                path,
                mode,
                object_value,
                fields,
                argument_values,
                completed,
            ));
            let result = finish_field(document, errors, path, field_def, field, completed);
            proof {
                added = added + errors@.skip(before.len() as int);
                if completed is Ok {
                    assert(errors@.skip(before.len() as int) =~= completed->Ok_0.errors@);
                } else {
                    assert(added.drop_last() =~= arguments.errors@);
                    assert(before =~= errors@.drop_last());
                }
                assert(errors@ =~= before + errors@.skip(before.len() as int));
            }
            result
        },
        Err(PropagateNull) => try_nullify(&field_def.ty, Err(PropagateNull)),
    };
    proof {
        assert(errors@ =~= old(errors)@ + added);
        assert(field_outcome(
            coercion,
            schema,
            document,
            variable_values,
            path,
            mode,
            object_value,
            field_def,
            fields,
            added,
            result,
        ));
    }
    result
}

/// What executing the fields with one response key gives: the errors that occurred, and a value
/// or a propagated null; or nothing where the type has no such field.
pub struct GroupStep {
    pub errors: Seq<GraphQLError>,
    pub value: Option<Result<JsonValue, PropagateNull>>,
}

/// Whether executing the fields with one response key may give `step`. The type name is answered
/// without asking the object; any other field that the type has is executed, one level deeper in
/// the response.
pub open spec fn group_outcome<O: Resolver, C: Coercion<O>>(
    coercion: &C,
    schema: &Schema,
    document: &ExecutableDocument,
    variable_values: &JsonMap,
    path: LinkedPath<'_>,
    mode: ExecutionMode,
    object_name: Seq<char>,
    object_value: &O,
    group: (Seq<char>, Seq<Field>),
    step: GroupStep,
) -> bool {
    match schema.field_of(object_name, group.1[0].name@) {
        None => step.errors.len() == 0 && step.value is None,
        Some(field_def) => if group.1[0].name@ == "__typename"@ {
            &&& step.errors.len() == 0
            &&& step.value matches Some(Ok(JsonValue::String(name))) && name@ == object_name
        } else {
            &&& step.value is Some
            &&& exists|key: Name, fields: &[&Field]|
                {
                    &&& key@ == group.0
                    &&& fields@.unref() == group.1
                    &&& #[trigger] field_outcome(
                        coercion,
                        schema,
                        document,
                        variable_values,
                        Some(
                            &LinkedPathElement {
                                element: ResponseDataPathElement::Field(key),
                                next: path,
                            },
                        ),
                        mode,
                        object_value,
                        &field_def,
                        fields,
                        step.errors,
                        step.value->0,
                    )
                }
        },
    }
}

/// Whether null propagates out of the step.
pub open spec fn propagates(step: GroupStep) -> bool {
    step.value matches Some(Err(_))
}

/// All errors of the steps, one step after the other.
pub open spec fn all_errors(steps: Seq<GroupStep>) -> Seq<GraphQLError>
    decreases steps.len(),
{
    if steps.len() == 0 {
        Seq::empty()
    } else {
        all_errors(steps.drop_last()) + steps.last().errors
    }
}

/// The response entries of the steps: one for each step that gives a value, under its response key.
pub open spec fn response_entries(
    groups: Seq<(Seq<char>, Seq<Field>)>,
    steps: Seq<GroupStep>,
) -> Seq<(Seq<char>, JsonView)>
    decreases steps.len(),
{
    if steps.len() == 0 {
        Seq::empty()
    } else {
        let before = response_entries(groups, steps.drop_last());
        match steps.last().value {
            Some(Ok(value)) => before.push((groups[steps.len() - 1].0, value@)),
            _ => before,
        }
    }
}

/// Whether executing the groups in turn may give `steps`: the execution ends with the first group
/// out of which null propagates.
pub open spec fn group_steps<O: Resolver, C: Coercion<O>>(
    coercion: &C,
    schema: &Schema,
    document: &ExecutableDocument,
    variable_values: &JsonMap,
    path: LinkedPath<'_>,
    mode: ExecutionMode,
    object_name: Seq<char>,
    object_value: &O,
    groups: Seq<(Seq<char>, Seq<Field>)>,
    steps: Seq<GroupStep>,
) -> bool {
    &&& steps.len() <= groups.len()
    &&& forall|i: int|
        0 <= i < steps.len() ==> group_outcome(
            coercion,
            schema,
            document,
            variable_values,
            path,
            mode,
            object_name,
            object_value,
            groups[i],
            #[trigger] steps[i],
        )
    &&& forall|i: int| 0 <= i < steps.len() - 1 ==> !propagates(#[trigger] steps[i])
}

/// Whether executing selections from an object may add the errors `added` and give `result`: the
/// response entries of all groups in their order, unless null propagates out of one of them.
pub open spec fn selection_set_outcome<O: Resolver, C: Coercion<O>>(
    coercion: &C,
    schema: &Schema,
    document: &ExecutableDocument,
    variable_values: &JsonMap,
    path: LinkedPath<'_>,
    mode: ExecutionMode,
    object_name: Seq<char>,
    object_type: &ObjectType,
    object_value: &O,
    selections: Seq<Selection>,
    added: Seq<GraphQLError>,
    result: Result<JsonMap, PropagateNull>,
) -> bool {
    let groups = collect::groups_of(
        collect::scope_of(*schema, *document, *variable_values, object_name, *object_type),
        selections,
    );
    exists|steps: Seq<GroupStep>|
        {
            &&& #[trigger] group_steps(
                coercion,
                schema,
                document,
                variable_values,
                path,
                mode,
                object_name,
                object_value,
                groups,
                steps,
            )
            &&& added == all_errors(steps)
            &&& match result {
                Ok(response) => {
                    &&& steps.len() == groups.len()
                    &&& steps.len() > 0 ==> !propagates(steps.last())
                    &&& response@ == response_entries(groups, steps)
                },
                Err(_) => steps.len() > 0 && propagates(steps.last()),
            }
        }
}

/// The keys of response entries are keys of the groups that they come from.
proof fn lemma_response_keys(groups: Seq<(Seq<char>, Seq<Field>)>, steps: Seq<GroupStep>)
    requires
        steps.len() <= groups.len(),
    ensures
        forall|i: int|
            0 <= i < response_entries(groups, steps).len() ==> exists|j: int|
                0 <= j < steps.len() && (#[trigger] response_entries(groups, steps)[i]).0 == (
                #[trigger] groups[j]).0,
    decreases steps.len(),
{
    if steps.len() > 0 {
        let before = steps.drop_last();
        lemma_response_keys(groups, before);
        assert forall|i: int| 0 <= i < response_entries(groups, steps).len() implies exists|j: int|
            0 <= j < steps.len() && (#[trigger] response_entries(groups, steps)[i]).0 == (
            #[trigger] groups[j]).0 by {
            if i < response_entries(groups, before).len() {
                assert(response_entries(groups, steps)[i] == response_entries(groups, before)[i]);
            } else {
                assert(response_entries(groups, steps)[i].0 == groups[steps.len() - 1].0);
            }
        }
    }
}

/// Executes the fields with one response key, and adds the errors that occur.
fn execute_group<O: Resolver, C: Coercion<O>>(
    coercion: &C,
    schema: &Schema,
    document: &ExecutableDocument,
    variable_values: &JsonMap,
    errors: &mut Vec<GraphQLError>,
    path: LinkedPath<'_>,
    mode: ExecutionMode,
    object_type_name: &str,
    object_value: &O,
    response_key: &Name,
    fields: &[&Field],
) -> (result: Option<Result<JsonValue, PropagateNull>>)
    requires
        fields@.len() > 0,
    ensures
        exists|step: GroupStep|
            {
                &&& step.value == result
                &&& final(errors)@ == old(errors)@ + step.errors
                &&& #[trigger] group_outcome(
                    coercion,
                    schema,
                    document,
                    variable_values,
                    path,
                    mode,
                    object_type_name@,
                    object_value,
                    (response_key@, fields@.unref()),
                    step,
                )
            },
{
    let field_name = &fields[0].name;
    let ghost group = (response_key@, fields@.unref());
    assert(group.1[0] == *fields@[0]);
    let ghost mut step = GroupStep { errors: Seq::empty(), value: None };
    let result = match schema.type_field(object_type_name, field_name.as_str()) {
        None => None,
        Some(field_def) => if same_text(field_name.as_str(), "__typename") {
            let value = Ok(JsonValue::String(object_type_name.to_owned()));
            proof {
                step = GroupStep { errors: Seq::empty(), value: Some(value) };
            }
            Some(value)
        } else {
            let key = response_key.clone();
            let ghost key_copy = key;
            let field_path = LinkedPathElement {
                element: ResponseDataPathElement::Field(key),
                next: path,
            };
            let value = execute_field(
                coercion,
                schema,
                document,
                variable_values,
                errors,
                Some(&field_path),
                mode,
                object_value,
                field_def,
                fields,
            );
            proof {
                let added = choose|added: Seq<GraphQLError>|
                    {
                        &&& errors@ == old(errors)@ + added
                        &&& #[trigger] field_outcome(
                            coercion,
                            schema,
                            document,
                            variable_values,
                            Some(
                                &LinkedPathElement {
                                    element: ResponseDataPathElement::Field(key_copy),
                                    next: path,
                                },
                            ),
                            mode,
                            object_value,
                            field_def,
                            fields,
                            added,
                            value,
                        )
                    };
                step = GroupStep { errors: added, value: Some(value) };
            }
            Some(value)
        },
    };
    proof {
        assert(errors@ =~= old(errors)@ + step.errors);
        assert(group_outcome(
            coercion,
            schema,
            document,
            variable_values,
            path,
            mode,
            object_type_name@,
            object_value,
            group,
            step,
        ));
    }
    result
}

/// The steps of an execution of selections from an object.
pub proof fn lemma_steps<O: Resolver, C: Coercion<O>>(
    coercion: &C,
    schema: &Schema,
    document: &ExecutableDocument,
    variable_values: &JsonMap,
    path: LinkedPath<'_>,
    mode: ExecutionMode,
    object_name: Seq<char>,
    object_type: &ObjectType,
    object_value: &O,
    selections: Seq<Selection>,
    added: Seq<GraphQLError>,
    result: Result<JsonMap, PropagateNull>,
) -> (steps: Seq<GroupStep>)
    requires
        selection_set_outcome(
            coercion,
            schema,
            document,
            variable_values,
            path,
            mode,
            object_name,
            object_type,
            object_value,
            selections,
            added,
            result,
        ),
    ensures
        ({
            let groups = collect::groups_of(
                collect::scope_of(*schema, *document, *variable_values, object_name, *object_type),
                selections,
            );
            &&& group_steps(
                coercion,
                schema,
                document,
                variable_values,
                path,
                mode,
                object_name,
                object_value,
                groups,
                steps,
            )
            &&& added == all_errors(steps)
            &&& match result {
                Ok(response) => {
                    &&& steps.len() == groups.len()
                    &&& steps.len() > 0 ==> !propagates(steps.last())
                    &&& response@ == response_entries(groups, steps)
                },
                Err(_) => steps.len() > 0 && propagates(steps.last()),
            }
        }),
{
    let groups = collect::groups_of(
        collect::scope_of(*schema, *document, *variable_values, object_name, *object_type),
        selections,
    );
    choose|steps: Seq<GroupStep>|
        {
            &&& #[trigger] group_steps(
                coercion,
                schema,
                document,
                variable_values,
                path,
                mode,
                object_name,
                object_value,
                groups,
                steps,
            )
            &&& added == all_errors(steps)
            &&& match result {
                Ok(response) => {
                    &&& steps.len() == groups.len()
                    &&& steps.len() > 0 ==> !propagates(steps.last())
                    &&& response@ == response_entries(groups, steps)
                },
                Err(_) => steps.len() > 0 && propagates(steps.last()),
            }
        }
}

/// Whether the field that a group selects may be null, or is not executed at all.
pub open spec fn may_be_null(
    schema: Schema,
    object_name: Seq<char>,
    group: (Seq<char>, Seq<Field>),
) -> bool {
    match schema.field_of(object_name, group.1[0].name@) {
        Some(field_def) => !field_def.ty.is_non_null() || group.1[0].name@ == "__typename"@,
        None => true,
    }
}

/// Where every selected field may be null, null does not propagate out of the selection set.
pub proof fn lemma_nullable_fields_settle<O: Resolver, C: Coercion<O>>(
    coercion: &C,
    schema: &Schema,
    document: &ExecutableDocument,
    variable_values: &JsonMap,
    path: LinkedPath<'_>,
    mode: ExecutionMode,
    object_name: Seq<char>,
    object_type: &ObjectType,
    object_value: &O,
    selections: Seq<Selection>,
    added: Seq<GraphQLError>,
    result: Result<JsonMap, PropagateNull>,
)
    requires
        selection_set_outcome(
            coercion,
            schema,
            document,
            variable_values,
            path,
            mode,
            object_name,
            object_type,
            object_value,
            selections,
            added,
            result,
        ),
        ({
            let groups = collect::groups_of(
                collect::scope_of(*schema, *document, *variable_values, object_name, *object_type),
                selections,
            );
            forall|i: int|
                0 <= i < groups.len() ==> may_be_null(*schema, object_name, #[trigger] groups[i])
        }),
    ensures
        result is Ok,
{
    let groups = collect::groups_of(
        collect::scope_of(*schema, *document, *variable_values, object_name, *object_type),
        selections,
    );
    if result is Err {
        let steps = lemma_steps(
            coercion,
            schema,
            document,
            variable_values,
            path,
            mode,
            object_name,
            object_type,
            object_value,
            selections,
            added,
            result,
        );
        let last = steps.len() - 1;
        assert(may_be_null(*schema, object_name, groups[last]));
        assert(group_outcome(
            coercion,
            schema,
            document,
            variable_values,
            path,
            mode,
            object_name,
            object_value,
            groups[last],
            steps[last],
        ));
    }
}

/// Null does not propagate out of a selection set without an error, where the steps of the execution
/// of its fields report their failures.
pub proof fn lemma_selection_set_reports<O: Resolver, C: Coercion<O>>(
    coercion: &C,
    schema: &Schema,
    document: &ExecutableDocument,
    variable_values: &JsonMap,
    path: LinkedPath<'_>,
    mode: ExecutionMode,
    object_name: Seq<char>,
    object_type: &ObjectType,
    object_value: &O,
    selections: Seq<Selection>,
    added: Seq<GraphQLError>,
    result: Result<JsonMap, PropagateNull>,
)
    requires
        reports_failures::<O, C>(coercion),
        selection_set_outcome(
            coercion,
            schema,
            document,
            variable_values,
            path,
            mode,
            object_name,
            object_type,
            object_value,
            selections,
            added,
            result,
        ),
    ensures
        result is Err ==> added.len() > 0,
{
    let groups = collect::groups_of(
        collect::scope_of(*schema, *document, *variable_values, object_name, *object_type),
        selections,
    );
    if result is Err {
        let steps = lemma_steps(
            coercion,
            schema,
            document,
            variable_values,
            path,
            mode,
            object_name,
            object_type,
            object_value,
            selections,
            added,
            result,
        );
        let last = steps.len() - 1;
        assert(group_outcome(
            coercion,
            schema,
            document,
            variable_values,
            path,
            mode,
            object_name,
            object_value,
            groups[last],
            steps[last],
        ));
    }
}

proof fn lemma_response_complete(groups: Seq<(Seq<char>, Seq<Field>)>, steps: Seq<GroupStep>)
    requires
        steps.len() <= groups.len(),
        forall|i: int| 0 <= i < steps.len() ==> (#[trigger] steps[i]).value matches Some(Ok(_)),
    ensures
        response_entries(groups, steps).len() == steps.len(),
        forall|i: int|
            0 <= i < steps.len() ==> (#[trigger] response_entries(groups, steps)[i]).0
                == groups[i].0,
    decreases steps.len(),
{
    if steps.len() > 0 {
        let before = steps.drop_last();
        assert forall|i: int| 0 <= i < before.len() implies (
        #[trigger] before[i]).value matches Some(Ok(_)) by {
            assert(before[i] == steps[i]);
        }
        lemma_response_complete(groups, before);
        assert(steps[steps.len() - 1].value matches Some(Ok(_)));
    }
}

/// The response of a selection set all of whose fields are defined has one entry for each response
/// key, in the order in which the keys first occur.
pub proof fn lemma_response_keys_in_order<O: Resolver, C: Coercion<O>>(
    coercion: &C,
    schema: &Schema,
    document: &ExecutableDocument,
    variable_values: &JsonMap,
    path: LinkedPath<'_>,
    mode: ExecutionMode,
    object_name: Seq<char>,
    object_type: &ObjectType,
    object_value: &O,
    selections: Seq<Selection>,
    added: Seq<GraphQLError>,
    response: JsonMap,
)
    requires
        selection_set_outcome(
            coercion,
            schema,
            document,
            variable_values,
            path,
            mode,
            object_name,
            object_type,
            object_value,
            selections,
            added,
            Ok(response),
        ),
        ({
            let groups = collect::groups_of(
                collect::scope_of(*schema, *document, *variable_values, object_name, *object_type),
                selections,
            );
            forall|i: int|
                0 <= i < groups.len() ==> schema.field_of(
                    object_name,
                    (#[trigger] groups[i]).1[0].name@,
                ) is Some
        }),
    ensures
        ({
            let groups = collect::groups_of(
                collect::scope_of(*schema, *document, *variable_values, object_name, *object_type),
                selections,
            );
            &&& response@.len() == groups.len()
            &&& forall|i: int|
                0 <= i < groups.len() ==> (#[trigger] response@[i]).0 == groups[i].0
        }),
{
    let groups = collect::groups_of(
        collect::scope_of(*schema, *document, *variable_values, object_name, *object_type),
        selections,
    );
    let steps = lemma_steps(
        coercion,
        schema,
        document,
        variable_values,
        path,
        mode,
        object_name,
        object_type,
        object_value,
        selections,
        added,
        Ok(response),
    );
    assert forall|i: int| 0 <= i < steps.len() implies (
    #[trigger] steps[i]).value matches Some(Ok(_)) by {
        assert(group_outcome(
            coercion,
            schema,
            document,
            variable_values,
            path,
            mode,
            object_name,
            object_value,
            groups[i],
            steps[i],
        ));
        assert(schema.field_of(object_name, groups[i].1[0].name@) is Some);
        assert(!propagates(steps[i])) by {
            if i == steps.len() - 1 {
                assert(steps[i] == steps.last());
            }
        }
    }
    lemma_response_complete(groups, steps);
}

proof fn lemma_entries_distinct(groups: Seq<(Seq<char>, Seq<Field>)>, steps: Seq<GroupStep>)
    requires
        steps.len() <= groups.len(),
        forall|i: int, j: int|
            0 <= i < j < groups.len() ==> (#[trigger] groups[i]).0 != (#[trigger] groups[j]).0,
    ensures
        forall|i: int, j: int|
            0 <= i < j < response_entries(groups, steps).len() ==> (#[trigger] response_entries(
                groups,
                steps,
            )[i]).0 != (#[trigger] response_entries(groups, steps)[j]).0,
    decreases steps.len(),
{
    if steps.len() > 0 {
        let before = response_entries(groups, steps.drop_last());
        let entries = response_entries(groups, steps);
        lemma_entries_distinct(groups, steps.drop_last());
        lemma_response_keys(groups, steps.drop_last());
        assert forall|i: int, j: int| 0 <= i < j < entries.len() implies (
        #[trigger] entries[i]).0 != (#[trigger] entries[j]).0 by {
            assert(entries[i] == before[i]);
            if j < before.len() {
                assert(entries[j] == before[j]);
            } else {
                let k = choose|k: int|
                    0 <= k < steps.len() - 1 && before[i].0 == (#[trigger] groups[k]).0;
                assert(groups[k].0 != groups[steps.len() - 1].0);
            }
        }
    }
}

/// No response has two entries with the same key.
pub proof fn lemma_response_keys_distinct<O: Resolver, C: Coercion<O>>(
    coercion: &C,
    schema: &Schema,
    document: &ExecutableDocument,
    variable_values: &JsonMap,
    path: LinkedPath<'_>,
    mode: ExecutionMode,
    object_name: Seq<char>,
    object_type: &ObjectType,
    object_value: &O,
    selections: Seq<Selection>,
    added: Seq<GraphQLError>,
    response: JsonMap,
)
    requires
        selection_set_outcome(
            coercion,
            schema,
            document,
            variable_values,
            path,
            mode,
            object_name,
            object_type,
            object_value,
            selections,
            added,
            Ok(response),
        ),
    ensures
        forall|i: int, j: int|
            0 <= i < j < response@.len() ==> (#[trigger] response@[i]).0 != (
            #[trigger] response@[j]).0,
{
    let scope = collect::scope_of(
        *schema,
        *document,
        *variable_values,
        object_name,
        *object_type,
    );
    let groups = collect::groups_of(scope, selections);
    let steps = lemma_steps(
        coercion,
        schema,
        document,
        variable_values,
        path,
        mode,
        object_name,
        object_type,
        object_value,
        selections,
        added,
        Ok(response),
    );
    collect::lemma_groups(scope, selections);
    lemma_entries_distinct(groups, steps);
}

/// Executes the selections from an object, and adds the errors that occur.
pub fn execute_selection_set<'a, O: Resolver, C: Coercion<O>>(
    coercion: &C,
    schema: &Schema,
    document: &'a ExecutableDocument,
    variable_values: &JsonMap,
    errors: &mut Vec<GraphQLError>,
    path: LinkedPath<'_>,
    mode: ExecutionMode,
    object_type_name: &str,
    object_type: &ObjectType,
    object_value: &O,
    selections: &[&'a Selection],
) -> (result: Result<JsonMap, PropagateNull>)
    ensures
        exists|added: Seq<GraphQLError>|
            {
                &&& final(errors)@ == old(errors)@ + added
                &&& #[trigger] selection_set_outcome(
                    coercion,
                    schema,
                    document,
                    variable_values,
                    path,
                    mode,
                    object_type_name@,
                    object_type,
                    object_value,
                    selections@.unref(),
                    added,
                    result,
                )
            },
{
    let mut grouped_field_set = no_groups();
    let mut visited_fragments = NameSet::new();
    collect_fields(
        schema,
        document,
        variable_values,
        object_type_name,
        object_type,
        selections,
        &mut visited_fragments,
        &mut grouped_field_set,
    );
    let ghost scope = collect::scope_of(
        *schema,
        *document,
        *variable_values,
        object_type_name@,
        *object_type,
    );
    let ghost found = collect::collect(scope, Set::empty(), selections@.unref()).fields;
    let ghost keys = grouping::keys_in_order(found, collect::by_response_key());
    let ghost groups = collect::groups_of(scope, selections@.unref());
    proof {
        grouping::lemma_with_items_grouped(found, collect::by_response_key());
        grouping::lemma_grouped(found, collect::by_response_key());
    }
    let count = group_count(&grouped_field_set);
    let mut response_map = JsonMap::with_capacity(count);
    let ghost mut steps: Seq<GroupStep> = Seq::empty();
    let mut result = Ok(());
    let mut i: usize = 0;
    while i < count && result.is_ok()
        invariant
            i <= count,
            count == groups.len(),
            groups::entries(grouped_field_set) == groups,
            keys.no_duplicates(),
            forall|j: int|
                0 <= j < groups.len() ==> (#[trigger] groups[j]).0 == keys[j] && groups[j].1.len()
                    > 0,
            keys.len() == groups.len(),
            steps.len() == i,
            group_steps(
                coercion,
                schema,
                document,
                variable_values,
                path,
                mode,
                object_type_name@,
                object_value,
                groups,
                steps,
            ),
            result is Err <==> steps.len() > 0 && propagates(steps.last()),
            errors@ == old(errors)@ + all_errors(steps),
            response_map@ == response_entries(groups, steps),
        decreases count - i,
    {
        let ghost steps_before = steps;
        let ghost errors_before = errors@;
        if let Some((response_key, fields)) = group_at(&grouped_field_set, i) {
            let fields = fields.as_slice();
            assert(groups[i as int].1.len() == fields@.len());
            let value = execute_group(
                coercion,
                schema,
                document,
                variable_values,
                errors,
                path,
                mode,
                object_type_name,
                object_value,
                response_key,
                fields,
            );
            proof {
                let step = choose|step: GroupStep|
                    {
                        &&& step.value == value
                        &&& errors@ == errors_before + step.errors
                        &&& #[trigger] group_outcome(
                            coercion,
                            schema,
                            document,
                            variable_values,
                            path,
                            mode,
                            object_type_name@,
                            object_value,
                            groups[i as int],
                            step,
                        )
                    };
                steps = steps_before.push(step);
                assert(steps.drop_last() =~= steps_before);
                assert(errors@ =~= old(errors)@ + all_errors(steps));
            }
            match value {
                None => {},
                Some(Ok(value)) => {
                    proof {
                        lemma_response_keys(groups, steps_before);
                        json::lemma_json_insert_new(response_map@, keys[i as int], value@);
                    }
                    response_map.insert(response_key.as_str(), value);
                },
                Some(Err(PropagateNull)) => {
                    result = Err(PropagateNull);
                },
            }
        }
        i += 1;
    }
    let result = match result {
        Ok(_) => Ok(response_map),
        Err(PropagateNull) => Err(PropagateNull),
    };
    assert(selection_set_outcome(
        coercion,
        schema,
        document,
        variable_values,
        path,
        mode,
        object_type_name@,
        object_type,
        object_value,
        selections@.unref(),
        all_errors(steps),
        result,
    ));
    result
}

} // verus!
