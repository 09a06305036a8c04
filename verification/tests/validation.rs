use graphql_core::ast::{
    Argument, Directive, Field, FieldDefinition, FileId, FragmentDefinition, FragmentSpread,
    InlineFragment, NodeLocation, Selection, Type, Value,
};
use graphql_core::database::{NamedFragments, OperationValidationConfig, ValidationDatabase};
use graphql_core::diagnostics::{ApolloDiagnostic, DiagnosticData, Label};
use graphql_core::names::{NameMap, NameSet};
use graphql_core::schema::{
    EnumType, EnumValueDefinition, ExtendedType, InputObjectType, InterfaceType,
    MetaFieldDefinitions, ObjectType, ScalarType, Schema, UnionType,
};
use graphql_core::validation::arguments::identical_arguments;
use graphql_core::validation::fields::{
    group_fields_by_name, operation_fields, FieldAgainstType,
};
use graphql_core::validation::merge::fields_in_set_can_merge;
use graphql_core::validation::selection::{
    validate_selection_set2, validate_selections, SelectionRules,
};
use graphql_core::validation::shape::same_response_shape;

const ARGUMENTS_HELP: &str = "Fields with the same response name must provide the same set of arguments. Consider adding an alias if you need to select fields with different arguments.";

fn text(s: &str) -> String {
    s.to_string()
}

fn file(id: u64) -> FileId {
    FileId { id }
}

fn at(offset: usize) -> NodeLocation {
    NodeLocation { file_id: file(1), offset, length: 1 }
}

fn named(name: &str) -> Type {
    Type::Named(text(name))
}

fn non_null(name: &str) -> Type {
    Type::NonNullNamed(text(name))
}

fn list(item: Type) -> Type {
    Type::List(Box::new(item))
}

fn non_null_list(item: Type) -> Type {
    Type::NonNullList(Box::new(item))
}

fn definition(name: &str, ty: Type) -> FieldDefinition {
    FieldDefinition {
        description: None,
        name: text(name),
        arguments: vec![],
        ty,
        directives: vec![],
    }
}

fn object(implements: &[&str], fields: Vec<FieldDefinition>) -> ExtendedType {
    ExtendedType::Object(ObjectType {
        description: None,
        implements_interfaces: implements.iter().map(|name| text(name)).collect(),
        directives: vec![],
        fields,
    })
}

fn scalar(name: &str) -> ExtendedType {
    ExtendedType::Scalar(ScalarType { description: None, name: text(name), directives: vec![] })
}

fn enumeration(name: &str, values: &[&str]) -> ExtendedType {
    ExtendedType::Enum(EnumType {
        description: None,
        name: text(name),
        directives: vec![],
        values: values
            .iter()
            .map(|value| EnumValueDefinition {
                description: None,
                value: text(value),
                directives: vec![],
            })
            .collect(),
    })
}

fn schema() -> Schema {
    let mut types = NameMap::new();
    types.insert(text("String"), scalar("String"));
    types.insert(text("Int"), scalar("Int"));
    types.insert(text("Kind"), enumeration("Kind", &["BIG", "SMALL"]));
    types.insert(
        text("Filter"),
        ExtendedType::InputObject(InputObjectType {
            description: None,
            directives: vec![],
            fields: vec![],
        }),
    );
    types.insert(
        text("Query"),
        object(
            &[],
            vec![
                definition("name", named("String")),
                definition("title", named("String")),
                definition("count", named("Int")),
                definition("total", non_null("Int")),
                definition("kind", named("Kind")),
                definition("names", list(named("String"))),
                definition("titles", list(non_null("String"))),
                definition("labels", non_null_list(named("String"))),
                definition("rows", list(list(named("String")))),
                definition("dog", named("Dog")),
                definition("cat", named("Cat")),
                definition("pet", named("Pet")),
                definition("unknown", named("Missing")),
                definition("self", named("Query")),
            ],
        ),
    );
    types.insert(
        text("Dog"),
        object(&["Named"], vec![definition("name", named("String")), definition("nick", named("String")), definition("barks", named("Int"))]),
    );
    types.insert(
        text("Bird"),
        object(&[], vec![definition("sings", named("Int")), definition("flies", named("Int"))]),
    );
    types.insert(
        text("Cat"),
        object(&["Named"], vec![definition("name", non_null("String")), definition("barks", named("Int"))]),
    );
    types.insert(
        text("Named"),
        ExtendedType::Interface(InterfaceType {
            description: None,
            implements_interfaces: vec![],
            directives: vec![],
            fields: vec![definition("name", named("String"))],
        }),
    );
    types.insert(
        text("Pet"),
        ExtendedType::Union(UnionType {
            description: None,
            directives: vec![],
            members: vec![text("Dog"), text("Cat")],
        }),
    );
    Schema { types, query: Some(text("Query")), meta_fields: MetaFieldDefinitions::new() }
}

fn database() -> ValidationDatabase {
    ValidationDatabase::new(schema())
}

fn config() -> OperationValidationConfig {
    OperationValidationConfig { has_schema: true, variables: vec![] }
}

fn argument(name: &str, value: Value, offset: usize) -> Argument {
    Argument { name: text(name), value, location: Some(at(offset)) }
}

fn number(digits: &str) -> Value {
    Value::Int(text(digits))
}

fn field(alias: Option<&str>, name: &str, offset: usize, below: Vec<Selection>) -> Field {
    Field {
        alias: alias.map(text),
        name: text(name),
        arguments: vec![],
        directives: vec![],
        selection_set: below,
        location: Some(at(offset)),
    }
}

fn leaf(name: &str, offset: usize) -> Selection {
    Selection::Field(field(None, name, offset, vec![]))
}

fn aliased(alias: &str, name: &str, offset: usize) -> Selection {
    Selection::Field(field(Some(alias), name, offset, vec![]))
}

fn nested(name: &str, offset: usize, below: Vec<Selection>) -> Selection {
    Selection::Field(field(None, name, offset, below))
}

fn spread(name: &str) -> Selection {
    Selection::FragmentSpread(FragmentSpread {
        fragment_name: text(name),
        directives: vec![],
        location: Some(at(900)),
    })
}

fn inline(condition: Option<&str>, selections: Vec<Selection>) -> Selection {
    Selection::InlineFragment(InlineFragment {
        type_condition: condition.map(text),
        directives: vec![],
        selection_set: selections,
        location: Some(at(901)),
    })
}

fn fragment(name: &str, on: &str, selections: Vec<Selection>) -> FragmentDefinition {
    FragmentDefinition {
        name: text(name),
        type_condition: text(on),
        directives: vec![],
        selection_set: selections,
    }
}

fn fragments(all: Vec<FragmentDefinition>) -> NamedFragments {
    let mut map = NameMap::new();
    for fragment in all {
        map.insert(fragment.name.clone(), fragment);
    }
    map
}

fn selected(found: &[FieldAgainstType<'_>]) -> Vec<(String, String)> {
    found
        .iter()
        .map(|field| (field.against_type.clone(), field.field.name.clone()))
        .collect()
}

fn pairs(expected: &[(&str, &str)]) -> Vec<(String, String)> {
    expected.iter().map(|(ty, name)| (text(ty), text(name))).collect()
}

fn shape_of(a: &Field, on_a: &str, b: &Field, on_b: &str) -> Result<(), ApolloDiagnostic> {
    let db = database();
    let (on_a, on_b) = (text(on_a), text(on_b));
    same_response_shape(
        &db,
        FieldAgainstType { against_type: &on_a, field: a },
        FieldAgainstType { against_type: &on_b, field: b },
    )
}

fn merge(selections: Vec<Selection>) -> Result<(), Vec<ApolloDiagnostic>> {
    fields_in_set_can_merge(&database(), &fragments(vec![]), &text("Query"), &selections)
}

fn conflict(
    field: &str,
    original: usize,
    redefined: usize,
    labels: Vec<(usize, &str)>,
    help: Option<&str>,
) -> ApolloDiagnostic {
    ApolloDiagnostic {
        location: at(redefined),
        data: DiagnosticData::ConflictingField {
            field: text(field),
            original_selection: at(original),
            redefined_selection: at(redefined),
        },
        labels: labels
            .into_iter()
            .map(|(offset, words)| Label { location: at(offset), text: text(words) })
            .collect(),
        help: help.map(text),
    }
}

// Expansion and grouping.

#[test]
fn fields_come_in_written_order_with_fragments_expanded() {
    let named_fragments = fragments(vec![fragment("F", "Dog", vec![leaf("barks", 1), leaf("name", 2)])]);
    let ty = text("Query");
    let selections =
        vec![leaf("name", 3), spread("F"), inline(Some("Cat"), vec![leaf("name", 4)]), leaf("count", 5)];
    let found = operation_fields(&named_fragments, &ty, &selections);
    assert_eq!(
        selected(&found),
        pairs(&[
            ("Query", "name"),
            ("Dog", "barks"),
            ("Dog", "name"),
            ("Cat", "name"),
            ("Query", "count"),
        ])
    );
}

#[test]
fn fragment_spread_again_adds_nothing() {
    let named_fragments = fragments(vec![fragment("F", "Dog", vec![leaf("barks", 1)])]);
    let ty = text("Query");
    let once = vec![spread("F"), leaf("name", 2)];
    let twice = vec![spread("F"), leaf("name", 2), spread("F")];
    assert_eq!(
        selected(&operation_fields(&named_fragments, &ty, &once)),
        selected(&operation_fields(&named_fragments, &ty, &twice))
    );
}

#[test]
fn fragments_that_spread_each_other_are_expanded_once() {
    let named_fragments = fragments(vec![
        fragment("F", "Dog", vec![leaf("barks", 1), spread("G")]),
        fragment("G", "Cat", vec![leaf("name", 2), spread("F")]),
    ]);
    let ty = text("Query");
    let selections = vec![spread("F")];
    assert_eq!(
        selected(&operation_fields(&named_fragments, &ty, &selections)),
        pairs(&[("Dog", "barks"), ("Cat", "name")])
    );
}

#[test]
fn unknown_fragment_selects_nothing() {
    let ty = text("Query");
    let named_fragments = fragments(vec![]);
    let selections = vec![spread("Missing"), leaf("name", 1)];
    let found = operation_fields(&named_fragments, &ty, &selections);
    assert_eq!(selected(&found), pairs(&[("Query", "name")]));
}

#[test]
fn inline_fragment_without_condition_is_transparent() {
    let ty = text("Query");
    let named_fragments = fragments(vec![]);
    let closed = vec![leaf("name", 1), inline(None, vec![leaf("count", 2)]), leaf("title", 3)];
    let opened = vec![leaf("name", 1), leaf("count", 2), leaf("title", 3)];
    assert_eq!(
        selected(&operation_fields(&named_fragments, &ty, &closed)),
        selected(&operation_fields(&named_fragments, &ty, &opened))
    );
}

#[test]
fn groups_come_in_order_of_first_occurrence() {
    let ty = text("Query");
    let named_fragments = fragments(vec![]);
    let selections = vec![
        aliased("b", "name", 1),
        leaf("a", 2),
        aliased("b", "title", 3),
        leaf("c", 4),
        aliased("a", "count", 5),
    ];
    let found = operation_fields(&named_fragments, &ty, &selections);
    let groups = group_fields_by_name(found);
    let seen: Vec<(String, Vec<String>)> = groups
        .iter()
        .map(|group| {
            (
                group.response_name.clone(),
                group.fields.iter().map(|field| field.field.name.clone()).collect(),
            )
        })
        .collect();
    assert_eq!(
        seen,
        vec![
            (text("b"), vec![text("name"), text("title")]),
            (text("a"), vec![text("a"), text("count")]),
            (text("c"), vec![text("c")]),
        ]
    );
}

// Shapes.

#[test]
fn same_leaf_type_has_the_same_shape() {
    let a = field(None, "name", 1, vec![]);
    let b = field(None, "title", 2, vec![]);
    assert_eq!(shape_of(&a, "Query", &b, "Query"), Ok(()));
    assert_eq!(shape_of(&a, "Dog", &b, "Query"), Ok(()));
}

#[test]
fn different_leaf_types_conflict() {
    let a = field(Some("x"), "name", 1, vec![]);
    let b = field(Some("x"), "count", 2, vec![]);
    assert_eq!(
        shape_of(&a, "Query", &b, "Query"),
        Err(conflict(
            "name",
            1,
            2,
            vec![
                (1, "`x` has type `String` here"),
                (2, "but the same field name has type `Int` here"),
            ],
            None,
        ))
    );
    let kind = field(Some("x"), "kind", 3, vec![]);
    assert!(shape_of(&a, "Query", &kind, "Query").is_err());
    assert!(shape_of(&kind, "Query", &kind, "Query").is_ok());
}

#[test]
fn nullability_and_lists_must_agree() {
    let count = field(None, "count", 1, vec![]);
    let total = field(None, "total", 2, vec![]);
    assert_eq!(
        shape_of(&count, "Query", &total, "Query").unwrap_err().labels,
        vec![
            Label { location: at(1), text: text("`count` has type `Int` here") },
            Label { location: at(2), text: text("but the same field name has type `Int!` here") },
        ]
    );
    let name = field(None, "name", 3, vec![]);
    let names = field(None, "names", 4, vec![]);
    let titles = field(None, "titles", 5, vec![]);
    let labels = field(None, "labels", 6, vec![]);
    let rows = field(None, "rows", 7, vec![]);
    assert!(shape_of(&names, "Query", &names, "Query").is_ok());
    assert!(shape_of(&rows, "Query", &rows, "Query").is_ok());
    assert!(shape_of(&name, "Query", &names, "Query").is_err());
    assert!(shape_of(&names, "Query", &titles, "Query").is_err());
    assert!(shape_of(&names, "Query", &rows, "Query").is_err());
    let message = shape_of(&titles, "Query", &labels, "Query").unwrap_err();
    assert_eq!(message.labels[0].text, "`titles` has type `[String!]` here");
    assert_eq!(message.labels[1].text, "but the same field name has type `[String]!` here");
}

#[test]
fn unknown_types_conflict_with_nothing() {
    let name = field(None, "name", 1, vec![]);
    let nowhere = field(None, "nowhere", 2, vec![]);
    let unknown = field(None, "unknown", 3, vec![]);
    assert!(shape_of(&name, "Query", &nowhere, "Query").is_ok());
    assert!(shape_of(&nowhere, "Query", &name, "Query").is_ok());
    assert!(shape_of(&name, "Query", &unknown, "Query").is_ok());
    assert!(shape_of(&name, "Nowhere", &name, "Query").is_ok());
}

#[test]
fn leaf_agrees_only_with_itself() {
    let name = field(Some("x"), "name", 1, vec![]);
    let dog = field(Some("x"), "dog", 2, vec![leaf("name", 3)]);
    assert_eq!(
        shape_of(&name, "Query", &dog, "Query"),
        Err(conflict(
            "name",
            1,
            2,
            vec![
                (1, "`x` has type `String` here"),
                (2, "but the same field name has type `Dog` here"),
            ],
            None,
        ))
    );
    assert!(shape_of(&dog, "Query", &name, "Query").is_err());
    let kind = field(Some("x"), "kind", 4, vec![]);
    assert!(shape_of(&kind, "Query", &dog, "Query").is_err());
    assert!(shape_of(&dog, "Query", &dog, "Query").is_ok());
}

#[test]
fn composite_types_compare_what_is_selected_below() {
    let a = field(Some("x"), "dog", 1, vec![aliased("y", "name", 2)]);
    let b = field(Some("x"), "cat", 3, vec![aliased("y", "barks", 4)]);
    let c = field(Some("x"), "cat", 5, vec![aliased("z", "barks", 6)]);
    assert_eq!(
        shape_of(&a, "Query", &b, "Query"),
        Err(conflict(
            "name",
            2,
            4,
            vec![
                (2, "`y` has type `String` here"),
                (4, "but the same field name has type `Int` here"),
            ],
            None,
        ))
    );
    assert!(shape_of(&a, "Query", &c, "Query").is_ok());
    let dog = field(None, "dog", 7, vec![leaf("barks", 8)]);
    let cat = field(None, "cat", 9, vec![leaf("barks", 10)]);
    let pet = field(None, "pet", 11, vec![inline(Some("Cat"), vec![leaf("barks", 12)])]);
    assert!(shape_of(&dog, "Query", &cat, "Query").is_ok());
    assert!(shape_of(&dog, "Query", &pet, "Query").is_ok());
}

#[test]
fn each_two_fields_below_are_compared() {
    let a = field(None, "pet", 1, vec![inline(Some("Nobody"), vec![aliased("y", "name", 2)])]);
    let b = field(
        None,
        "pet",
        3,
        vec![
            inline(Some("Dog"), vec![aliased("y", "name", 4)]),
            inline(Some("Cat"), vec![aliased("y", "barks", 5)]),
        ],
    );
    // Nothing is known of the first of the three; the other two differ.
    let found = shape_of(&a, "Query", &b, "Query").unwrap_err();
    assert_eq!(found.labels[0].location, at(4));
    assert_eq!(found.labels[1].location, at(5));
}

#[test]
fn fragments_of_the_first_field_are_used_below() {
    let mut db = database();
    db.add_file(file(1), fragments(vec![fragment("F", "Query", vec![aliased("y", "count", 20)])]));
    let ty = text("Query");
    let a = field(Some("x"), "self", 1, vec![aliased("y", "name", 2)]);
    let b = field(Some("x"), "self", 3, vec![spread("F")]);
    let first = FieldAgainstType { against_type: &ty, field: &a };
    let second = FieldAgainstType { against_type: &ty, field: &b };
    assert_eq!(same_response_shape(&db, first, second).unwrap_err().location, at(20));
    let other = database();
    assert!(same_response_shape(&other, first, second).is_ok());
}

// Arguments.

fn with_arguments(offset: usize, arguments: Vec<Argument>) -> Field {
    Field { arguments, ..field(Some("x"), "name", offset, vec![]) }
}

#[test]
fn arguments_are_compared_in_any_order() {
    let a = with_arguments(1, vec![argument("p", number("1"), 2), argument("q", number("2"), 3)]);
    let b = with_arguments(4, vec![argument("q", number("2"), 5), argument("p", number("1"), 6)]);
    assert_eq!(identical_arguments(&a, &b), Ok(()));
    assert_eq!(identical_arguments(&b, &a), Ok(()));
}

#[test]
fn missing_argument_conflicts() {
    let a = with_arguments(1, vec![argument("p", number("1"), 2)]);
    let b = with_arguments(4, vec![]);
    assert_eq!(
        identical_arguments(&a, &b),
        Err(conflict(
            "name",
            1,
            4,
            vec![
                (2, "field `name` is selected with argument `p` here"),
                (4, "but argument `p` is not provided here"),
            ],
            Some(ARGUMENTS_HELP),
        ))
    );
}

#[test]
fn additional_argument_conflicts() {
    let a = with_arguments(1, vec![argument("p", number("1"), 2)]);
    let b = with_arguments(4, vec![argument("p", number("1"), 5), argument("q", number("2"), 6)]);
    assert_eq!(
        identical_arguments(&a, &b),
        Err(conflict(
            "name",
            1,
            4,
            vec![
                (6, "field `name` is selected with argument `q` here"),
                (1, "but argument `q` is not provided here"),
            ],
            Some(ARGUMENTS_HELP),
        ))
    );
}

#[test]
fn different_argument_value_conflicts() {
    let a = with_arguments(1, vec![argument("p", number("1"), 2)]);
    let b = with_arguments(4, vec![argument("p", number("2"), 5)]);
    assert_eq!(
        identical_arguments(&a, &b),
        Err(conflict(
            "name",
            1,
            4,
            vec![
                (2, "field `name` provides one argument value here"),
                (5, "but a different value here"),
            ],
            Some(ARGUMENTS_HELP),
        ))
    );
}

#[test]
fn argument_given_twice_counts_with_its_first_value() {
    let a = with_arguments(1, vec![argument("p", number("1"), 2), argument("p", number("2"), 3)]);
    let b = with_arguments(4, vec![argument("p", number("1"), 5)]);
    assert!(identical_arguments(&a, &b).is_err());
    assert!(identical_arguments(&b, &a).is_ok());
}

#[test]
fn values_are_compared_by_what_they_denote() {
    let values = || {
        vec![
            Value::Null,
            Value::Enum(text("BIG")),
            Value::Variable(text("BIG")),
            Value::String(text("BIG")),
            Value::Float(text("1")),
            Value::Int(text("1")),
            Value::Boolean(true),
            Value::List(vec![Value::Null, Value::Boolean(false)]),
            Value::List(vec![Value::Null]),
            Value::Object(vec![(text("a"), Value::Int(text("1")))]),
            Value::Object(vec![(text("b"), Value::Int(text("1")))]),
        ]
    };
    for (i, a) in values().iter().enumerate() {
        for (j, b) in values().iter().enumerate() {
            assert_eq!(a.same(b), i == j);
        }
    }
}

// Merging.

#[test]
fn empty_selection_set_merges() {
    assert_eq!(merge(vec![]), Ok(()));
}

#[test]
fn leaf_can_be_selected_again() {
    assert_eq!(merge(vec![leaf("name", 1), leaf("name", 2), leaf("name", 3)]), Ok(()));
}

#[test]
fn leaf_can_be_selected_again_with_arguments_in_another_order() {
    let a = with_arguments(1, vec![argument("p", number("1"), 2), argument("q", number("2"), 3)]);
    let b = with_arguments(4, vec![argument("q", number("2"), 5), argument("p", number("1"), 6)]);
    assert_eq!(merge(vec![Selection::Field(a), Selection::Field(b)]), Ok(()));
}

#[test]
fn fragments_below_fields_are_followed() {
    let named_fragments = || {
        fragments(vec![
            fragment("F", "Query", vec![nested("self", 1, vec![spread("G"), leaf("count", 2)])]),
            fragment("G", "Query", vec![aliased("x", "name", 3), spread("G")]),
        ])
    };
    let mut db = database();
    db.add_file(file(1), named_fragments());
    let ty = text("Query");
    let fine = vec![spread("F"), nested("self", 4, vec![aliased("x", "name", 5)])];
    assert_eq!(fields_in_set_can_merge(&db, &named_fragments(), &ty, &fine), Ok(()));
    let clash = vec![spread("F"), nested("self", 4, vec![aliased("x", "title", 5)])];
    let found = fields_in_set_can_merge(&db, &named_fragments(), &ty, &clash).unwrap_err();
    assert_eq!(found.len(), 1);
    assert_eq!(
        found[0].labels[0].text,
        "field `x` is selected from field `name` here"
    );
    assert_eq!(found[0].location, at(5));
}

#[test]
fn alias_of_another_field_conflicts() {
    assert_eq!(
        merge(vec![leaf("name", 1), aliased("name", "title", 2)]),
        Err(vec![conflict(
            "title",
            1,
            2,
            vec![
                (1, "field `name` is selected from field `name` here"),
                (2, "but the same field `name` is also selected from field `title` here"),
            ],
            Some("Alias is already used for a different field"),
        )])
    );
}

#[test]
fn each_conflict_with_the_first_field_is_reported() {
    let found = merge(vec![
        aliased("x", "name", 1),
        aliased("y", "name", 2),
        aliased("x", "title", 3),
        aliased("x", "count", 4),
        aliased("y", "title", 5),
        aliased("x", "title", 6),
    ])
    .unwrap_err();
    let places: Vec<usize> = found.iter().map(|diagnostic| diagnostic.location.offset).collect();
    assert_eq!(places, vec![3, 4, 6, 4, 6, 5]);
    let originals: Vec<usize> = found.iter().map(|diagnostic| diagnostic.labels[0].location.offset).collect();
    assert_eq!(originals, vec![1, 1, 1, 3, 4, 2]);
}

#[test]
fn fields_after_the_first_must_merge_too() {
    let selections = vec![
        inline(Some("Dog"), vec![aliased("v", "barks", 1)]),
        inline(Some("Bird"), vec![aliased("v", "sings", 2)]),
        inline(Some("Bird"), vec![aliased("v", "flies", 3)]),
    ];
    let found = fields_in_set_can_merge(&database(), &fragments(vec![]), &text("Pet"), &selections)
        .unwrap_err();
    assert_eq!(found.len(), 1);
    assert_eq!(found[0].labels[0].text, "field `v` is selected from field `sings` here");
    assert_eq!(
        found[0].labels[1].text,
        "but the same field `v` is also selected from field `flies` here"
    );
}

#[test]
fn fields_of_an_interface_and_of_an_object_must_be_the_same_field() {
    let merge_on_interface = |selections: Vec<Selection>| {
        fields_in_set_can_merge(&database(), &fragments(vec![]), &text("Named"), &selections)
    };
    let clash = vec![
        aliased("v", "name", 1),
        inline(Some("Dog"), vec![aliased("v", "nick", 2)]),
    ];
    assert_eq!(
        merge_on_interface(clash),
        Err(vec![conflict(
            "nick",
            1,
            2,
            vec![
                (1, "field `v` is selected from field `name` here"),
                (2, "but the same field `v` is also selected from field `nick` here"),
            ],
            Some("Alias is already used for a different field"),
        )])
    );
    let fine = vec![
        aliased("v", "name", 1),
        inline(Some("Dog"), vec![aliased("v", "name", 2)]),
    ];
    assert_eq!(merge_on_interface(fine), Ok(()));
}

#[test]
fn leading_selections_of_a_set_that_merges_merge() {
    let all = || {
        vec![
            leaf("name", 1),
            nested("dog", 2, vec![leaf("name", 3)]),
            nested("dog", 4, vec![leaf("barks", 5)]),
            leaf("name", 6),
        ]
    };
    assert_eq!(merge(all()), Ok(()));
    for count in 0..4 {
        assert_eq!(merge(all().into_iter().take(count).collect()), Ok(()));
    }
}

#[test]
fn repeated_selections_of_a_set_that_merges_merge() {
    let once = || {
        vec![
            leaf("nowhere", 1),
            aliased("nowhere", "name", 2),
            inline(Some("Dog"), vec![aliased("x", "barks", 3)]),
            inline(Some("Bird"), vec![aliased("x", "sings", 4)]),
            leaf("name", 5),
        ]
    };
    assert_eq!(merge(once()), Ok(()));
    assert_eq!(merge(once().into_iter().chain(once()).collect()), Ok(()));
}

#[test]
fn fields_of_different_types_need_not_be_the_same_field() {
    let selections = vec![
        inline(Some("Dog"), vec![aliased("x", "name", 1)]),
        inline(Some("Query"), vec![aliased("x", "title", 2)]),
    ];
    assert_eq!(merge(selections), Ok(()));
    let selections = vec![
        inline(Some("Dog"), vec![aliased("x", "name", 1)]),
        inline(Some("Cat"), vec![aliased("x", "name", 2)]),
    ];
    assert_eq!(merge(selections).unwrap_err()[0].labels[1].text,
        "but the same field name has type `String!` here");
}

#[test]
fn what_is_selected_below_must_merge() {
    let selections = vec![
        nested("dog", 1, vec![aliased("x", "name", 2)]),
        nested("dog", 3, vec![aliased("x", "barks", 4)]),
    ];
    let found = merge(selections).unwrap_err();
    assert_eq!(found.len(), 1);
    assert_eq!(found[0].location, at(4));
    assert_eq!(found[0].labels[0].text, "`x` has type `String` here");
    assert_eq!(found[0].labels[1].text, "but the same field name has type `Int` here");
}

#[test]
fn different_arguments_keep_fields_from_merging() {
    let a = with_arguments(1, vec![argument("p", number("1"), 2)]);
    let b = with_arguments(4, vec![argument("p", number("2"), 5)]);
    let found = merge(vec![Selection::Field(a), Selection::Field(b)]).unwrap_err();
    assert_eq!(found.len(), 1);
    assert_eq!(found[0].help, Some(text(ARGUMENTS_HELP)));
}

#[test]
fn field_of_unknown_type_is_not_merged() {
    assert_eq!(merge(vec![leaf("nowhere", 1), aliased("nowhere", "name", 2)]), Ok(()));
    assert_eq!(
        merge(vec![aliased("x", "name", 1), aliased("x", "nowhere", 2)]).unwrap_err().len(),
        1
    );
}

#[test]
fn meta_fields_are_known() {
    assert_eq!(
        merge(vec![aliased("x", "__typename", 1), aliased("x", "total", 2)])
            .unwrap_err()[0]
            .labels[0]
            .text,
        "`x` has type `String!` here"
    );
    let schema = schema();
    assert_eq!(schema.type_field("Query", "__schema").map(|field| field.name.as_str()), Some("__schema"));
    assert_eq!(schema.type_field("Query", "__type").map(|field| field.arguments.len()), Some(1));
    assert!(schema.type_field("Dog", "__schema").is_none());
    assert!(schema.type_field("Pet", "__typename").is_some());
    assert!(schema.type_field("Kind", "__typename").is_none());
    assert!(schema.type_field("Filter", "__typename").is_none());
    assert!(schema.type_field("Missing", "__typename").is_none());
}

#[test]
fn types_are_written_as_in_documents() {
    assert_eq!(named("A").text(), "A");
    assert_eq!(non_null("A").text(), "A!");
    assert_eq!(list(non_null("A")).text(), "[A!]");
    assert_eq!(non_null_list(list(named("A"))).text(), "[[A]]!");
    assert_eq!(non_null_list(list(named("A"))).inner_named_type(), "A");
    assert!(non_null_list(named("A")).is_non_null());
    assert!(!list(non_null("A")).is_non_null());
}

#[test]
fn leaf_definitions_are_compared_as_a_whole() {
    let plain = scalar("S");
    let described = ExtendedType::Scalar(ScalarType {
        description: Some(text("words")),
        name: text("S"),
        directives: vec![],
    });
    let directed = |value: &str| {
        ExtendedType::Scalar(ScalarType {
            description: None,
            name: text("S"),
            directives: vec![Directive {
                name: text("d"),
                arguments: vec![argument("p", number(value), 1)],
            }],
        })
    };
    let all = [
        plain,
        described,
        directed("1"),
        directed("2"),
        enumeration("S", &["A", "B"]),
        enumeration("S", &["B", "A"]),
    ];
    for (i, a) in all.iter().enumerate() {
        for (j, b) in all.iter().enumerate() {
            assert_eq!(graphql_core::schema::same_leaf(a, b), i == j);
        }
    }
}

// Whole selection sets.

struct Rules;

fn note(message: &str, offset: usize) -> ApolloDiagnostic {
    ApolloDiagnostic::new(at(offset), DiagnosticData::Other { message: text(message) })
}

impl SelectionRules for Rules {
    fn validate_field(
        &self,
        _db: &ValidationDatabase,
        against_type: Option<&String>,
        field: &Field,
        _context: &OperationValidationConfig,
    ) -> Vec<ApolloDiagnostic> {
        let on = against_type.map(|ty| ty.as_str()).unwrap_or("?");
        vec![note(&format!("{}.{}", on, field.name), 1)]
    }

    fn validate_fragment_spread(
        &self,
        _db: &ValidationDatabase,
        _against_type: Option<&String>,
        spread: &FragmentSpread,
        _context: &OperationValidationConfig,
    ) -> Vec<ApolloDiagnostic> {
        vec![note(&spread.fragment_name, 2), note("again", 3)]
    }

    fn validate_inline_fragment(
        &self,
        _db: &ValidationDatabase,
        _against_type: Option<&String>,
        _inline: &InlineFragment,
        context: &OperationValidationConfig,
    ) -> Vec<ApolloDiagnostic> {
        assert!(context.has_schema);
        vec![]
    }
}

fn messages(found: &[ApolloDiagnostic]) -> Vec<String> {
    found
        .iter()
        .map(|diagnostic| match &diagnostic.data {
            DiagnosticData::Other { message } => message.clone(),
            DiagnosticData::ConflictingField { field, .. } => format!("conflict {}", field),
        })
        .collect()
}

#[test]
fn each_selection_follows_the_rule_for_its_kind() {
    let selections = vec![leaf("name", 1), inline(None, vec![]), spread("F"), leaf("count", 2)];
    let ty = text("Query");
    let db = database();
    let found = validate_selections(&db, &Rules, Some(&ty), &selections, &config());
    assert_eq!(messages(&found), vec!["Query.name", "F", "again", "Query.count"]);
    let mut parts = validate_selections(&db, &Rules, Some(&ty), &selections[..2], &config());
    parts.extend(validate_selections(&db, &Rules, Some(&ty), &selections[2..], &config()));
    assert_eq!(found, parts);
}

#[test]
fn conflicts_come_before_the_rules() {
    let selections = vec![leaf("name", 1), aliased("name", "title", 2)];
    let ty = text("Query");
    let db = database();
    let found = validate_selection_set2(&db, &Rules, Some(&ty), &selections, &config());
    assert_eq!(messages(&found), vec!["conflict title", "Query.name", "Query.title"]);
}

#[test]
fn merging_is_skipped_without_a_type_or_a_location() {
    let db = database();
    let ty = text("Query");
    let selections = vec![leaf("name", 1), aliased("name", "title", 2)];
    let found = validate_selection_set2(&db, &Rules, None, &selections, &config());
    assert_eq!(messages(&found), vec!["?.name", "?.title"]);
    let unplaced = vec![
        Selection::Field(Field { location: None, ..field(None, "name", 1, vec![]) }),
        aliased("name", "title", 2),
    ];
    let found = validate_selection_set2(&db, &Rules, Some(&ty), &unplaced, &config());
    assert_eq!(messages(&found), vec!["Query.name", "Query.title"]);
    assert_eq!(validate_selection_set2(&db, &Rules, Some(&ty), &[], &config()), vec![]);
}

#[test]
fn fragments_come_from_the_file_of_the_first_selection() {
    let mut db = database();
    db.add_file(file(2), fragments(vec![fragment("F", "Query", vec![aliased("x", "name", 7)])]));
    db.add_file(file(1), fragments(vec![fragment("F", "Query", vec![aliased("x", "name", 8)])]));
    db.add_file(file(1), fragments(vec![fragment("F", "Query", vec![aliased("x", "title", 9)])]));
    let ty = text("Query");
    let selections = vec![aliased("x", "name", 1), spread("F")];
    let found = validate_selection_set2(&db, &Rules, Some(&ty), &selections, &config());
    assert_eq!(messages(&found), vec!["conflict title", "Query.name", "F", "again"]);
    assert_eq!(found[0].location, at(9));
}

#[test]
fn name_sets_tell_new_names() {
    let mut set = NameSet::new();
    assert!(!set.contains("a"));
    assert!(set.insert(text("a")));
    assert!(!set.insert(text("a")));
    assert!(set.contains("a"));
}
