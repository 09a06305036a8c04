use graphql_core::ast::{
    Argument, Directive, FieldDefinition, FileId, NodeLocation, Type, Value,
};
use graphql_core::execution::collect::{collect_fields, does_fragment_type_apply, eval_if_arg};
use graphql_core::execution::engine::{
    execute_field, execute_selection_set, finish_field, try_nullify, Coercion, ExecutionMode,
    PropagateNull, Resolver, ResolverError, Step,
};
use graphql_core::execution::error::{
    path_to_vec, GraphQLError, GraphQLLocation, LinkedPath, LinkedPathElement,
    ResponseDataPathElement, SourceMap, SourcePosition, SuspectedValidationBug,
};
use graphql_core::execution::executable::{
    ExecutableDocument, Field, Fragment, FragmentSpread, InlineFragment, Selection, SelectionSet,
};
use graphql_core::execution::json::{JsonMap, JsonValue};
use graphql_core::names::{NameMap, NameSet};
use graphql_core::schema::{
    ExtendedType, InterfaceType, MetaFieldDefinitions, ObjectType, ScalarType, Schema, UnionType,
};
use indexmap::IndexMap;

fn text(s: &str) -> String {
    s.to_string()
}

fn at(offset: usize) -> NodeLocation {
    NodeLocation { file_id: FileId { id: 1 }, offset, length: 1 }
}

fn named(name: &str) -> Type {
    Type::Named(text(name))
}

fn non_null(name: &str) -> Type {
    Type::NonNullNamed(text(name))
}

fn definition(name: &str, ty: Type) -> FieldDefinition {
    FieldDefinition {
        description: None,
        name: text(name),
        arguments: vec![],
        ty,
        directives: vec![],
    }
}

fn object_type(implements: &[&str], fields: Vec<FieldDefinition>) -> ObjectType {
    ObjectType {
        description: None,
        implements_interfaces: implements.iter().map(|name| text(name)).collect(),
        directives: vec![],
        fields,
    }
}

fn dog_type() -> ObjectType {
    object_type(
        &["Named"],
        vec![
            definition("name", named("String")),
            definition("age", non_null("Int")),
            definition("owner", named("Dog")),
            definition("fails", named("String")),
            definition("must", non_null("String")),
        ],
    )
}

fn schema() -> Schema {
    let mut types = NameMap::new();
    types.insert(
        text("String"),
        ExtendedType::Scalar(ScalarType {
            description: None,
            name: text("String"),
            directives: vec![],
        }),
    );
    types.insert(text("Dog"), ExtendedType::Object(dog_type()));
    types.insert(text("Cat"), ExtendedType::Object(object_type(&[], vec![])));
    for name in ["Named", "Other"] {
        types.insert(
            text(name),
            ExtendedType::Interface(InterfaceType {
                description: None,
                implements_interfaces: vec![],
                directives: vec![],
                fields: vec![],
            }),
        );
    }
    for (name, members) in [("Pet", ["Cat", "Dog"]), ("Thing", ["Cat", "Stone"])] {
        types.insert(
            text(name),
            ExtendedType::Union(UnionType {
                description: None,
                directives: vec![],
                members: members.iter().map(|member| text(member)).collect(),
            }),
        );
    }
    Schema { types, query: None, meta_fields: MetaFieldDefinitions::new() }
}

fn document(fragments: Vec<Fragment>) -> ExecutableDocument {
    let mut map = NameMap::new();
    for fragment in fragments {
        map.insert(fragment.name.clone(), fragment);
    }
    ExecutableDocument {
        sources: SourceMap {
            positions: vec![SourcePosition {
                node: at(7),
                position: GraphQLLocation { line: 3, column: 5 },
            }],
        },
        fragments: map,
    }
}

fn set(ty: &str, selections: Vec<Selection>) -> SelectionSet {
    SelectionSet { ty: text(ty), selections }
}

fn field(alias: Option<&str>, name: &str, offset: usize) -> Field {
    Field {
        definition: definition(name, named("String")),
        alias: alias.map(text),
        name: text(name),
        name_location: Some(at(offset)),
        arguments: vec![],
        directives: vec![],
        selection_set: set("String", vec![]),
    }
}

fn leaf(name: &str) -> Selection {
    Selection::Field(field(None, name, 7))
}

fn aliased(alias: &str, name: &str) -> Selection {
    Selection::Field(field(Some(alias), name, 7))
}

fn spread(name: &str) -> Selection {
    Selection::FragmentSpread(FragmentSpread { fragment_name: text(name), directives: vec![] })
}

fn inline(condition: Option<&str>, selections: Vec<Selection>) -> Selection {
    Selection::InlineFragment(InlineFragment {
        type_condition: condition.map(text),
        directives: vec![],
        selection_set: set("Dog", selections),
    })
}

fn fragment(name: &str, on: &str, selections: Vec<Selection>) -> Fragment {
    Fragment { name: text(name), directives: vec![], selection_set: set(on, selections) }
}

fn directive(name: &str, argument: &str, value: Value) -> Directive {
    Directive {
        name: text(name),
        arguments: vec![Argument { name: text(argument), value, location: None }],
    }
}

fn directed(name: &str, directives: Vec<Directive>) -> Selection {
    Selection::Field(Field { directives, ..field(None, name, 7) })
}

fn variables(entries: Vec<(&str, JsonValue)>) -> JsonMap {
    let mut map = JsonMap::new();
    for (name, value) in entries {
        map.insert(name, value);
    }
    map
}

fn string(words: &str) -> JsonValue {
    JsonValue::String(text(words))
}

fn collected(
    document: &ExecutableDocument,
    variable_values: &JsonMap,
    selections: &[Selection],
) -> Vec<(String, Vec<String>)> {
    let references: Vec<&Selection> = selections.iter().collect();
    let mut groups: IndexMap<&String, Vec<&Field>> = IndexMap::new();
    let mut visited = NameSet::new();
    collect_fields(
        &schema(),
        document,
        variable_values,
        "Dog",
        &dog_type(),
        &references,
        &mut visited,
        &mut groups,
    );
    groups
        .iter()
        .map(|(key, fields)| {
            (key.to_string(), fields.iter().map(|field| field.name.clone()).collect())
        })
        .collect()
}

fn groups(expected: &[(&str, &[&str])]) -> Vec<(String, Vec<String>)> {
    expected
        .iter()
        .map(|(key, names)| (text(key), names.iter().map(|name| text(name)).collect()))
        .collect()
}

// Which fragments apply.

#[test]
fn fragment_types_apply() {
    let (schema, dog) = (schema(), dog_type());
    let applies = |ty: &str| does_fragment_type_apply(&schema, "Dog", &dog, &text(ty));
    assert!(applies("Dog"));
    assert!(!applies("Cat"));
    assert!(applies("Named"));
    assert!(!applies("Other"));
    assert!(applies("Pet"));
    assert!(!applies("Thing"));
    assert!(!applies("String"));
    assert!(!applies("Missing"));
}

#[test]
fn if_arguments_are_evaluated() {
    let values = variables(vec![
        ("yes", JsonValue::Bool(true)),
        ("no", JsonValue::Bool(false)),
        ("word", string("true")),
    ]);
    let eval = |directives: Vec<Directive>| eval_if_arg(&directed("name", directives), "skip", &values);
    assert_eq!(eval(vec![]), None);
    assert_eq!(eval(vec![directive("include", "if", Value::Boolean(true))]), None);
    assert_eq!(eval(vec![directive("skip", "unless", Value::Boolean(true))]), None);
    assert_eq!(eval(vec![directive("skip", "if", Value::Boolean(true))]), Some(true));
    assert_eq!(eval(vec![directive("skip", "if", Value::Boolean(false))]), Some(false));
    assert_eq!(eval(vec![directive("skip", "if", Value::Variable(text("yes")))]), Some(true));
    assert_eq!(eval(vec![directive("skip", "if", Value::Variable(text("no")))]), Some(false));
    assert_eq!(eval(vec![directive("skip", "if", Value::Variable(text("word")))]), None);
    assert_eq!(eval(vec![directive("skip", "if", Value::Variable(text("nothing")))]), None);
    assert_eq!(eval(vec![directive("skip", "if", Value::Enum(text("true")))]), None);
    assert_eq!(
        eval(vec![
            directive("skip", "if", Value::Boolean(false)),
            directive("skip", "if", Value::Boolean(true)),
        ]),
        Some(false)
    );
}

// Collecting.

#[test]
fn fields_are_grouped_by_response_key_in_order() {
    let selections = vec![
        aliased("b", "name"),
        leaf("a"),
        inline(None, vec![aliased("b", "age"), leaf("c")]),
        aliased("a", "owner"),
    ];
    assert_eq!(
        collected(&document(vec![]), &JsonMap::new(), &selections),
        groups(&[("b", &["name", "age"]), ("a", &["a", "owner"]), ("c", &["c"])])
    );
}

#[test]
fn skipped_and_not_included_selections_are_left_out() {
    let on = || Value::Boolean(true);
    let off = || Value::Boolean(false);
    let selections = vec![
        directed("a", vec![directive("skip", "if", on())]),
        directed("b", vec![directive("skip", "if", off())]),
        directed("c", vec![directive("include", "if", on())]),
        directed("d", vec![directive("include", "if", off())]),
        directed("e", vec![directive("skip", "if", on()), directive("include", "if", on())]),
        directed("f", vec![directive("include", "if", Value::Variable(text("v")))]),
        directed("g", vec![directive("skip", "if", Value::Variable(text("v")))]),
    ];
    let values = variables(vec![("v", JsonValue::Bool(true))]);
    assert_eq!(
        collected(&document(vec![]), &values, &selections),
        groups(&[("b", &["b"]), ("c", &["c"]), ("f", &["f"])])
    );
}

#[test]
fn spread_fragments_are_collected_once() {
    let document = document(vec![
        fragment("F", "Named", vec![leaf("x"), spread("G")]),
        fragment("G", "Dog", vec![leaf("y"), spread("F")]),
        fragment("H", "Cat", vec![leaf("z")]),
    ]);
    let selections = vec![spread("F"), leaf("w"), spread("F"), spread("H"), spread("Missing")];
    assert_eq!(
        collected(&document, &JsonMap::new(), &selections),
        groups(&[("x", &["x"]), ("y", &["y"]), ("w", &["w"])])
    );
}

#[test]
fn left_out_spread_does_not_count_as_met() {
    let document = document(vec![fragment("F", "Dog", vec![leaf("x")])]);
    let left_out = Selection::FragmentSpread(FragmentSpread {
        fragment_name: text("F"),
        directives: vec![directive("skip", "if", Value::Boolean(true))],
    });
    let selections = vec![left_out, leaf("w"), spread("F")];
    assert_eq!(
        collected(&document, &JsonMap::new(), &selections),
        groups(&[("w", &["w"]), ("x", &["x"])])
    );
}

#[test]
fn inline_fragments_apply_by_condition() {
    let selections = vec![
        inline(Some("Cat"), vec![leaf("x")]),
        inline(Some("Pet"), vec![leaf("y")]),
        inline(None, vec![leaf("z")]),
    ];
    assert_eq!(
        collected(&document(vec![]), &JsonMap::new(), &selections),
        groups(&[("y", &["y"]), ("z", &["z"])])
    );
}

#[test]
fn collecting_goes_on_from_what_is_there() {
    let document = document(vec![fragment("F", "Dog", vec![leaf("x")])]);
    let (first, second) = (vec![leaf("a"), leaf("b")], vec![aliased("a", "name"), spread("F")]);
    let mut groups: IndexMap<&String, Vec<&Field>> = IndexMap::new();
    let mut visited = NameSet::new();
    for selections in [&first, &second] {
        let references: Vec<&Selection> = selections.iter().collect();
        collect_fields(
            &schema(),
            &document,
            &JsonMap::new(),
            "Dog",
            &dog_type(),
            &references,
            &mut visited,
            &mut groups,
        );
    }
    let keys: Vec<&str> = groups.keys().map(|key| key.as_str()).collect();
    assert_eq!(keys, vec!["a", "b", "x"]);
    assert_eq!(groups[0].len(), 2);
    assert!(visited.contains("F"));
}

// Executing.

struct Dog;

impl Resolver for Dog {
    type Resolved = String;

    fn resolve_field(&self, field_name: &String, arguments: &JsonMap) -> Result<String, ResolverError> {
        match field_name.as_str() {
            "fails" | "must" => Err(ResolverError { message: format!("no {}", field_name) }),
            other => Ok(format!("{}/{}", other, arguments.entries.len())),
        }
    }
}

struct Plain;

fn field_failure(message: &str, path: LinkedPath<'_>) -> GraphQLError {
    GraphQLError::field_error(text(message), path, None, &SourceMap { positions: vec![] })
}

impl Coercion<Dog> for Plain {
    fn coerce_argument_values(
        &self,
        _schema: &Schema,
        _document: &ExecutableDocument,
        variable_values: &JsonMap,
        path: LinkedPath<'_>,
        _field_def: &FieldDefinition,
        field: &Field,
    ) -> Step<JsonMap> {
        let mut errors = vec![];
        let mut values = JsonMap::new();
        for argument in &field.arguments {
            match &argument.value {
                Value::Variable(name) => {
                    if variable_values.get(name).is_none() {
                        errors.push(field_failure("missing variable", path));
                        return Step { errors, value: Err(PropagateNull) };
                    }
                }
                _ => errors.push(field_failure("odd argument", path)),
            }
            values.insert(&argument.name, JsonValue::Null);
        }
        Step { errors, value: Ok(values) }
    }

    fn complete_value(
        &self,
        _schema: &Schema,
        _document: &ExecutableDocument,
        _variable_values: &JsonMap,
        path: LinkedPath<'_>,
        mode: ExecutionMode,
        _ty: &Type,
        resolved: String,
        fields: &[&Field],
    ) -> Step<JsonValue> {
        if resolved.starts_with("owner") {
            return Step {
                errors: vec![field_failure("no owner", path)],
                value: Err(PropagateNull),
            };
        }
        let kind = match mode {
            ExecutionMode::Normal => "n",
            ExecutionMode::Sequential => "s",
        };
        Step {
            errors: vec![],
            value: Ok(string(&format!("{}*{}{}", resolved, fields.len(), kind))),
        }
    }
}

fn execute(selections: Vec<Selection>) -> (Result<JsonMap, PropagateNull>, Vec<GraphQLError>) {
    let references: Vec<&Selection> = selections.iter().collect();
    let document = document(vec![]);
    let mut errors = vec![];
    let result = execute_selection_set(
        &Plain,
        &schema(),
        &document,
        &JsonMap::new(),
        &mut errors,
        None,
        ExecutionMode::Normal,
        "Dog",
        &dog_type(),
        &Dog,
        &references,
    );
    (result, errors)
}

fn step_to(name: &str) -> ResponseDataPathElement {
    ResponseDataPathElement::Field(text(name))
}

#[test]
fn response_has_one_entry_for_each_key_in_order() {
    let (result, errors) = execute(vec![
        aliased("x", "name"),
        leaf("__typename"),
        leaf("age"),
        aliased("x", "name"),
    ]);
    assert_eq!(
        result,
        Ok(JsonMap {
            entries: vec![
                (text("x"), string("name/0*2n")),
                (text("__typename"), string("Dog")),
                (text("age"), string("age/0*1n")),
            ],
        })
    );
    assert_eq!(errors, vec![]);
}

#[test]
fn empty_selection_set_gives_an_empty_response() {
    assert_eq!(execute(vec![]), (Ok(JsonMap { entries: vec![] }), vec![]));
}

#[test]
fn undefined_fields_are_passed_over() {
    let (result, errors) = execute(vec![leaf("nothing"), leaf("name")]);
    assert_eq!(
        result,
        Ok(JsonMap { entries: vec![(text("name"), string("name/0*1n"))] })
    );
    assert_eq!(errors, vec![]);
}

#[test]
fn resolver_failure_of_a_nullable_field_gives_null() {
    let (result, errors) = execute(vec![aliased("x", "fails"), leaf("name")]);
    assert_eq!(
        result,
        Ok(JsonMap {
            entries: vec![(text("x"), JsonValue::Null), (text("name"), string("name/0*1n"))],
        })
    );
    assert_eq!(
        errors,
        vec![GraphQLError {
            message: text("resolver error: no fails"),
            locations: vec![GraphQLLocation { line: 3, column: 5 }],
            path: vec![step_to("x")],
            extensions: JsonMap::new(),
        }]
    );
}

#[test]
fn resolver_failure_of_a_non_null_field_propagates_at_once() {
    let (result, errors) = execute(vec![leaf("fails"), leaf("must"), leaf("owner")]);
    assert_eq!(result, Err(PropagateNull));
    let messages: Vec<&str> = errors.iter().map(|error| error.message.as_str()).collect();
    assert_eq!(messages, vec!["resolver error: no fails", "resolver error: no must"]);
}

#[test]
fn completion_failure_of_a_nullable_field_gives_null() {
    let (result, errors) = execute(vec![leaf("owner")]);
    assert_eq!(result, Ok(JsonMap { entries: vec![(text("owner"), JsonValue::Null)] }));
    assert_eq!(errors[0].path, vec![step_to("owner")]);
}

fn run_field(
    field: &Field,
    field_def: &FieldDefinition,
    path: LinkedPath<'_>,
    mode: ExecutionMode,
) -> (Result<JsonValue, PropagateNull>, Vec<String>) {
    let mut errors = vec![field_failure("earlier", None)];
    let result = execute_field(
        &Plain,
        &schema(),
        &document(vec![]),
        &JsonMap::new(),
        &mut errors,
        path,
        mode,
        &Dog,
        field_def,
        &[field],
    );
    (result, errors.into_iter().map(|error| error.message).collect())
}

#[test]
fn arguments_without_values_give_null_or_propagate() {
    let mut unusual = field(None, "name", 1);
    unusual.arguments = vec![
        Argument { name: text("p"), value: Value::Null, location: None },
        Argument { name: text("q"), value: Value::Variable(text("v")), location: None },
    ];
    let nullable = definition("name", named("String"));
    let required = definition("name", non_null("String"));
    let expected = vec![text("earlier"), text("odd argument"), text("missing variable")];
    assert_eq!(
        run_field(&unusual, &nullable, None, ExecutionMode::Normal),
        (Ok(JsonValue::Null), expected.clone())
    );
    assert_eq!(
        run_field(&unusual, &required, None, ExecutionMode::Normal),
        (Err(PropagateNull), expected)
    );
}

#[test]
fn field_is_executed_with_its_arguments_and_mode() {
    let mut unusual = field(None, "name", 1);
    unusual.arguments = vec![Argument { name: text("p"), value: Value::Null, location: None }];
    assert_eq!(
        run_field(&unusual, &definition("name", non_null("String")), None, ExecutionMode::Sequential),
        (Ok(string("name/1*1s")), vec![text("earlier"), text("odd argument")])
    );
}

#[test]
fn finishing_a_field_adds_its_errors() {
    let document = document(vec![]);
    let element = LinkedPathElement { element: step_to("x"), next: None };
    let required = definition("name", non_null("String"));
    let nullable = definition("name", named("String"));
    let name = field(None, "name", 7);
    let mut errors = vec![];
    let done = Step { errors: vec![field_failure("met", None)], value: Ok(string("v")) };
    assert_eq!(
        finish_field(&document, &mut errors, Some(&element), &required, &name, Ok(done)),
        Ok(string("v"))
    );
    let failed = ResolverError { message: text("gone") };
    assert_eq!(
        finish_field(&document, &mut errors, Some(&element), &nullable, &name, Err(failed)),
        Ok(JsonValue::Null)
    );
    let failed = ResolverError { message: text("lost") };
    assert_eq!(
        finish_field(&document, &mut errors, Some(&element), &required, &name, Err(failed)),
        Err(PropagateNull)
    );
    let messages: Vec<&str> = errors.iter().map(|error| error.message.as_str()).collect();
    assert_eq!(messages, vec!["met", "resolver error: gone", "resolver error: lost"]);
    assert_eq!(errors[1].path, vec![step_to("x")]);
    assert_eq!(errors[1].locations, vec![GraphQLLocation { line: 3, column: 5 }]);
}

#[test]
fn null_is_inserted_only_where_it_is_admitted() {
    assert_eq!(try_nullify(&named("A"), Err(PropagateNull)), Ok(JsonValue::Null));
    assert_eq!(try_nullify(&non_null("A"), Err(PropagateNull)), Err(PropagateNull));
    assert_eq!(
        try_nullify(&Type::List(Box::new(non_null("A"))), Err(PropagateNull)),
        Ok(JsonValue::Null)
    );
    assert_eq!(
        try_nullify(&Type::NonNullList(Box::new(named("A"))), Err(PropagateNull)),
        Err(PropagateNull)
    );
    assert_eq!(try_nullify(&non_null("A"), Ok(string("v"))), Ok(string("v")));
    let once = try_nullify(&named("A"), Err(PropagateNull));
    let twice = try_nullify(&named("A"), try_nullify(&named("A"), Err(PropagateNull)));
    assert_eq!(once, twice);
}

// Errors.

#[test]
fn paths_read_from_the_outside_inwards() {
    let outer = LinkedPathElement { element: step_to("a"), next: None };
    let middle = LinkedPathElement {
        element: ResponseDataPathElement::ListIndex(4),
        next: Some(&outer),
    };
    let inner = LinkedPathElement { element: step_to("b"), next: Some(&middle) };
    assert_eq!(path_to_vec(None), vec![]);
    assert_eq!(
        path_to_vec(Some(&inner)),
        vec![step_to("a"), ResponseDataPathElement::ListIndex(4), step_to("b")]
    );
    let mut extended = path_to_vec(Some(&middle));
    extended.push(step_to("b"));
    assert_eq!(path_to_vec(Some(&inner)), extended);
}

#[test]
fn field_errors_have_location_and_path() {
    let sources = document(vec![]).sources;
    let element = LinkedPathElement { element: step_to("a"), next: None };
    let known = GraphQLError::field_error(text("m"), Some(&element), Some(at(7)), &sources);
    assert_eq!(known.message, "m");
    assert_eq!(known.locations, vec![GraphQLLocation { line: 3, column: 5 }]);
    assert_eq!(known.path, vec![step_to("a")]);
    assert_eq!(known.extensions, JsonMap::new());
    let unknown = GraphQLError::field_error(text("m"), None, Some(at(8)), &sources);
    assert_eq!(unknown.locations, vec![]);
    assert_eq!(unknown.path, vec![]);
    assert_eq!(GraphQLError::new(text("m"), None, &sources), unknown);
}

#[test]
fn suspected_validation_bugs_are_marked() {
    let sources = document(vec![]).sources;
    let bug = || SuspectedValidationBug { message: text("odd"), location: Some(at(7)) };
    let element = LinkedPathElement { element: step_to("a"), next: None };
    let error = bug().into_field_error(&sources, Some(&element));
    assert_eq!(
        error,
        GraphQLError {
            message: text("odd"),
            locations: vec![GraphQLLocation { line: 3, column: 5 }],
            path: vec![step_to("a")],
            extensions: JsonMap {
                entries: vec![(text("APOLLO_SUSPECTED_VALIDATION_BUG"), JsonValue::Bool(true))],
            },
        }
    );
    assert_eq!(bug().into_graphql_error(&sources).path, vec![]);
}

#[test]
fn json_objects_keep_the_order_of_first_insertion() {
    let mut map = JsonMap::with_capacity(2);
    map.insert("b", JsonValue::Null);
    map.insert("a", JsonValue::Bool(true));
    map.insert("b", string("v"));
    assert_eq!(
        map.entries,
        vec![(text("b"), string("v")), (text("a"), JsonValue::Bool(true))]
    );
    assert_eq!(map.get("a").and_then(|value| value.as_bool()), Some(true));
    assert_eq!(map.get("b").and_then(|value| value.as_bool()), None);
    assert_eq!(map.get("c"), None);
}
