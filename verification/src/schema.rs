//! The types of a schema and their fields.
use vstd::prelude::*;

use crate::ast::{Argument, Directive, FieldDefinition, InputValueDefinition, Name, NamedType, Type, ValueView};
use crate::lookup;
use crate::names;
use crate::names::{same_text, NameMap};

verus! {

/// A scalar type.
#[derive(Debug)]
pub struct ScalarType {
    pub description: Option<String>,
    pub name: Name,
    pub directives: Vec<Directive>,
}

/// An object type.
#[derive(Debug)]
pub struct ObjectType {
    pub description: Option<String>,
    pub implements_interfaces: Vec<Name>,
    pub directives: Vec<Directive>,
    pub fields: Vec<FieldDefinition>,
}

/// An interface type.
#[derive(Debug)]
pub struct InterfaceType {
    pub description: Option<String>,
    pub implements_interfaces: Vec<Name>,
    pub directives: Vec<Directive>,
    pub fields: Vec<FieldDefinition>,
}

/// A union type.
#[derive(Debug)]
pub struct UnionType {
    pub description: Option<String>,
    pub directives: Vec<Directive>,
    pub members: Vec<NamedType>,
}

/// One value of an enum type.
#[derive(Debug)]
pub struct EnumValueDefinition {
    pub description: Option<String>,
    pub value: Name,
    pub directives: Vec<Directive>,
}

/// An enum type.
#[derive(Debug)]
pub struct EnumType {
    pub description: Option<String>,
    pub name: Name,
    pub directives: Vec<Directive>,
    pub values: Vec<EnumValueDefinition>,
}

/// An input object type.
#[derive(Debug)]
pub struct InputObjectType {
    pub description: Option<String>,
    pub directives: Vec<Directive>,
    pub fields: Vec<InputValueDefinition>,
}

/// A type definition.
#[derive(Debug)]
pub enum ExtendedType {
    Scalar(ScalarType),
    Object(ObjectType),
    Interface(InterfaceType),
    Union(UnionType),
    Enum(EnumType),
    InputObject(InputObjectType),
}

impl ExtendedType {
    pub open spec fn spec_is_leaf(&self) -> bool {
        self is Scalar || self is Enum
    }

    /// Whether values of the type have no fields of their own in a response.
    #[verifier::when_used_as_spec(spec_is_leaf)]
    pub fn is_leaf(&self) -> (result: bool)
        ensures
            result == self.spec_is_leaf(),
    {
        matches!(self, ExtendedType::Scalar(_) | ExtendedType::Enum(_))
    }

    pub open spec fn spec_is_composite(&self) -> bool {
        self is Object || self is Interface || self is Union
    }

    /// Whether fields are selected from values of the type.
    #[verifier::when_used_as_spec(spec_is_composite)]
    pub fn is_composite(&self) -> (result: bool)
        ensures
            result == self.spec_is_composite(),
    {
        matches!(self, ExtendedType::Object(_) | ExtendedType::Interface(_) | ExtendedType::Union(_))
    }
}

/// What an applied directive says: its name, and its arguments in their order.
pub struct DirectiveView {
    pub name: Seq<char>,
    pub arguments: Seq<(Seq<char>, ValueView)>,
}

/// What a scalar type or an enum type is.
pub enum LeafView {
    Scalar { description: Option<Seq<char>>, name: Seq<char>, directives: Seq<DirectiveView> },
    Enum {
        description: Option<Seq<char>>,
        name: Seq<char>,
        directives: Seq<DirectiveView>,
        values: Seq<(Option<Seq<char>>, Seq<char>, Seq<DirectiveView>)>,
    },
}

/// The text, where there is one.
pub open spec fn optional_text(text: Option<String>) -> Option<Seq<char>> {
    match text {
        Some(text) => Some(text@),
        None => None,
    }
}

pub open spec fn argument_view(argument: Argument) -> (Seq<char>, ValueView) {
    (argument.name@, argument.value@)
}

pub open spec fn directive_view(directive: Directive) -> DirectiveView {
    DirectiveView {
        name: directive.name@,
        arguments: directive.arguments@.map_values(|argument: Argument| argument_view(argument)),
    }
}

pub open spec fn directives_view(directives: Seq<Directive>) -> Seq<DirectiveView> {
    directives.map_values(|directive: Directive| directive_view(directive))
}

pub open spec fn enum_value_view(value: EnumValueDefinition) -> (
    Option<Seq<char>>,
    Seq<char>,
    Seq<DirectiveView>,
) {
    (optional_text(value.description), value.value@, directives_view(value.directives@))
}

/// What the definition of a leaf type says. Two leaf types are the same where it is equal.
pub open spec fn leaf_view(ty: ExtendedType) -> Option<LeafView> {
    match ty {
        ExtendedType::Scalar(scalar) => Some(
            LeafView::Scalar {
                description: optional_text(scalar.description),
                name: scalar.name@,
                directives: directives_view(scalar.directives@),
            },
        ),
        ExtendedType::Enum(en) => Some(
            LeafView::Enum {
                description: optional_text(en.description),
                name: en.name@,
                directives: directives_view(en.directives@),
                values: en.values@.map_values(|value: EnumValueDefinition| enum_value_view(value)),
            },
        ),
        _ => None,
    }
}

fn same_optional_text(a: &Option<String>, b: &Option<String>) -> (result: bool)
    ensures
        result == (optional_text(*a) == optional_text(*b)),
{
    match (a, b) {
        (Some(x), Some(y)) => *x == *y,
        (None, None) => true,
        _ => false,
    }
}

fn same_arguments(a: &Vec<Argument>, b: &Vec<Argument>) -> (result: bool)
    ensures
        result == (a@.map_values(|argument: Argument| argument_view(argument)) == b@.map_values(
            |argument: Argument| argument_view(argument),
        )),
{
    let ghost va = a@.map_values(|argument: Argument| argument_view(argument));
    let ghost vb = b@.map_values(|argument: Argument| argument_view(argument));
    if a.len() != b.len() {
        assert(va.len() != vb.len());
        return false;
    }
    let mut i: usize = 0;
    while i < a.len()
        invariant
            i <= a.len(),
            a.len() == b.len(),
            va == a@.map_values(|argument: Argument| argument_view(argument)),
            vb == b@.map_values(|argument: Argument| argument_view(argument)),
            forall|j: int| 0 <= j < i ==> va[j] == vb[j],
        decreases a.len() - i,
    {
        let same = a[i].name == b[i].name && a[i].value.same(&b[i].value);
        if !same {
            assert(va[i as int] != vb[i as int]);
            return false;
        }
        i += 1;
    }
    assert(va =~= vb);
    true
}

fn same_directives(a: &Vec<Directive>, b: &Vec<Directive>) -> (result: bool)
    ensures
        result == (directives_view(a@) == directives_view(b@)),
{
    if a.len() != b.len() {
        assert(directives_view(a@).len() != directives_view(b@).len());
        return false;
    }
    let mut i: usize = 0;
    while i < a.len()
        invariant
            i <= a.len(),
            a.len() == b.len(),
            forall|j: int| 0 <= j < i ==> directives_view(a@)[j] == directives_view(b@)[j],
        decreases a.len() - i,
    {
        let same = a[i].name == b[i].name && same_arguments(&a[i].arguments, &b[i].arguments);
        if !same {
            assert(directives_view(a@)[i as int] != directives_view(b@)[i as int]);
            return false;
        }
        i += 1;
    }
    assert(directives_view(a@) =~= directives_view(b@));
    true
}

fn same_enum_values(a: &Vec<EnumValueDefinition>, b: &Vec<EnumValueDefinition>) -> (result: bool)
    ensures
        result == (a@.map_values(|value: EnumValueDefinition| enum_value_view(value))
            == b@.map_values(|value: EnumValueDefinition| enum_value_view(value))),
{
    let ghost va = a@.map_values(|value: EnumValueDefinition| enum_value_view(value));
    let ghost vb = b@.map_values(|value: EnumValueDefinition| enum_value_view(value));
    if a.len() != b.len() {
        assert(va.len() != vb.len());
        return false;
    }
    let mut i: usize = 0;
    while i < a.len()
        invariant
            i <= a.len(),
            a.len() == b.len(),
            va == a@.map_values(|value: EnumValueDefinition| enum_value_view(value)),
            vb == b@.map_values(|value: EnumValueDefinition| enum_value_view(value)),
            forall|j: int| 0 <= j < i ==> va[j] == vb[j],
        decreases a.len() - i,
    {
        let same = same_optional_text(&a[i].description, &b[i].description) && a[i].value
            == b[i].value && same_directives(&a[i].directives, &b[i].directives);
        if !same {
            assert(va[i as int] != vb[i as int]);
            return false;
        }
        i += 1;
    }
    assert(va =~= vb);
    true
}

/// Whether two leaf types are the same type.
pub fn same_leaf(a: &ExtendedType, b: &ExtendedType) -> (result: bool)
    requires
        a.is_leaf(),
        b.is_leaf(),
    ensures
        result == (leaf_view(*a) == leaf_view(*b)),
{
    match (a, b) {
        (ExtendedType::Scalar(x), ExtendedType::Scalar(y)) => {
            same_optional_text(&x.description, &y.description) && x.name == y.name
                && same_directives(&x.directives, &y.directives)
        },
        (ExtendedType::Enum(x), ExtendedType::Enum(y)) => {
            same_optional_text(&x.description, &y.description) && x.name == y.name
                && same_directives(&x.directives, &y.directives) && same_enum_values(
                &x.values,
                &y.values,
            )
        },
        _ => false,
    }
}

/// Whether a field has the given name.
pub open spec fn field_has_name(name: Seq<char>) -> spec_fn(FieldDefinition) -> bool {
    |field: FieldDefinition| field.name@ == name
}

/// A field is found by a name exactly where it has that name and none before it has. None is found
/// exactly where none has it.
pub proof fn lemma_field_named(fields: Seq<FieldDefinition>, name: Seq<char>)
    ensures
        field_named(fields, name) is None <==> forall|i: int|
            0 <= i < fields.len() ==> (#[trigger] fields[i]).name@ != name,
        forall|i: int|
            0 <= i < fields.len() && (#[trigger] fields[i]).name@ == name && (forall|j: int|
                0 <= j < i ==> (#[trigger] fields[j]).name@ != name) ==> field_named(fields, name)
                == Some(fields[i]),
{
    let p = field_has_name(name);
    lookup::lemma_first_match(fields, p);
    assert forall|i: int|
        0 <= i < fields.len() && (#[trigger] fields[i]).name@ == name && (forall|j: int|
            0 <= j < i ==> (#[trigger] fields[j]).name@ != name) implies field_named(fields, name)
        == Some(fields[i]) by {
        lookup::lemma_is_first_match(fields, p, i);
    }
    if field_named(fields, name) is None {
        assert forall|i: int| 0 <= i < fields.len() implies (#[trigger] fields[i]).name@ != name by {
            assert(!p(fields[i]));
        }
    } else {
        let i = lookup::lemma_first_match_at(fields, p);
        assert(fields[i].name@ == name);
    }
}

/// Leaf types that are the same are of the same kind, and agree in their name, description, values
/// and directives.
pub proof fn lemma_same_leaf(a: ExtendedType, b: ExtendedType)
    requires
        leaf_view(a) is Some,
        leaf_view(a) == leaf_view(b),
    ensures
        a is Scalar || a is Enum,
        a is Scalar ==> {
            &&& b is Scalar
            &&& a->Scalar_0.name@ == b->Scalar_0.name@
            &&& same_words(a->Scalar_0.description, b->Scalar_0.description)
            &&& same_applied(a->Scalar_0.directives@, b->Scalar_0.directives@)
        },
        a is Enum ==> {
            &&& b is Enum
            &&& a->Enum_0.name@ == b->Enum_0.name@
            &&& same_words(a->Enum_0.description, b->Enum_0.description)
            &&& same_applied(a->Enum_0.directives@, b->Enum_0.directives@)
            &&& a->Enum_0.values@.len() == b->Enum_0.values@.len()
            &&& forall|i: int|
                0 <= i < a->Enum_0.values@.len() ==> {
                    let x = #[trigger] a->Enum_0.values@[i];
                    let y = b->Enum_0.values@[i];
                    &&& x.value@ == y.value@
                    &&& same_words(x.description, y.description)
                    &&& same_applied(x.directives@, y.directives@)
                }
        },
{
    match (a, b) {
        (ExtendedType::Scalar(x), ExtendedType::Scalar(y)) => {
            lemma_same_applied(x.directives@, y.directives@);
        },
        (ExtendedType::Enum(x), ExtendedType::Enum(y)) => {
            lemma_same_applied(x.directives@, y.directives@);
            let seen_x = x.values@.map_values(|value: EnumValueDefinition| enum_value_view(value));
            let seen_y = y.values@.map_values(|value: EnumValueDefinition| enum_value_view(value));
            assert(seen_x == seen_y);
            assert(seen_x.len() == x.values@.len() && seen_y.len() == y.values@.len());
            assert forall|i: int| 0 <= i < x.values@.len() implies {
                let u = #[trigger] x.values@[i];
                let v = y.values@[i];
                &&& u.value@ == v.value@
                &&& same_words(u.description, v.description)
                &&& same_applied(u.directives@, v.directives@)
            } by {
                assert(seen_x[i] == seen_y[i]);
                lemma_same_applied(x.values@[i].directives@, y.values@[i].directives@);
            }
        },
        _ => {},
    }
}

/// Leaf types of the same kind that agree in their name, description, values and directives are the
/// same, wherever they are written.
pub proof fn lemma_leaf_by_parts(a: ExtendedType, b: ExtendedType)
    requires
        match (a, b) {
            (ExtendedType::Scalar(x), ExtendedType::Scalar(y)) => x.name@ == y.name@ && same_words(
                x.description,
                y.description,
            ) && same_applied(x.directives@, y.directives@),
            (ExtendedType::Enum(x), ExtendedType::Enum(y)) => {
                &&& x.name@ == y.name@
                &&& same_words(x.description, y.description)
                &&& same_applied(x.directives@, y.directives@)
                &&& x.values@.len() == y.values@.len()
                &&& forall|i: int|
                    0 <= i < x.values@.len() ==> (#[trigger] x.values@[i]).value@
                        == y.values@[i].value@ && same_words(
                        x.values@[i].description,
                        y.values@[i].description,
                    ) && same_applied(x.values@[i].directives@, y.values@[i].directives@)
            },
            _ => false,
        },
    ensures
        leaf_view(a) is Some,
        leaf_view(a) == leaf_view(b),
{
    match (a, b) {
        (ExtendedType::Scalar(x), ExtendedType::Scalar(y)) => {
            lemma_applied_by_parts(x.directives@, y.directives@);
        },
        (ExtendedType::Enum(x), ExtendedType::Enum(y)) => {
            lemma_applied_by_parts(x.directives@, y.directives@);
            let seen_x = x.values@.map_values(|value: EnumValueDefinition| enum_value_view(value));
            let seen_y = y.values@.map_values(|value: EnumValueDefinition| enum_value_view(value));
            assert forall|i: int| 0 <= i < seen_x.len() implies seen_x[i] == seen_y[i] by {
                assert(x.values@[i].value@ == y.values@[i].value@);
                lemma_applied_by_parts(x.values@[i].directives@, y.values@[i].directives@);
            }
            assert(seen_x =~= seen_y);
        },
        _ => {},
    }
}

proof fn lemma_applied_by_parts(a: Seq<Directive>, b: Seq<Directive>)
    requires
        same_applied(a, b),
    ensures
        directives_view(a) == directives_view(b),
{
    assert forall|i: int| 0 <= i < a.len() implies #[trigger] directives_view(a)[i]
        == directives_view(b)[i] by {
        assert(a[i].name@ == b[i].name@);
        let x = directive_view(a[i]).arguments;
        let y = directive_view(b[i]).arguments;
        assert forall|j: int| 0 <= j < x.len() implies x[j] == y[j] by {
            assert(a[i].arguments@[j].name@ == b[i].arguments@[j].name@);
        }
        assert(x =~= y);
    }
    assert(directives_view(a) =~= directives_view(b));
}

/// Whether two texts that may be missing are both missing, or the same.
pub open spec fn same_words(a: Option<String>, b: Option<String>) -> bool {
    match (a, b) {
        (Some(x), Some(y)) => x@ == y@,
        (None, None) => true,
        _ => false,
    }
}

/// Whether the same directives are applied, in the same order and with the same arguments.
pub open spec fn same_applied(a: Seq<Directive>, b: Seq<Directive>) -> bool {
    &&& a.len() == b.len()
    &&& forall|i: int|
        0 <= i < a.len() ==> {
            &&& (#[trigger] a[i]).name@ == b[i].name@
            &&& a[i].arguments@.len() == b[i].arguments@.len()
            &&& forall|j: int|
                0 <= j < a[i].arguments@.len() ==> (#[trigger] a[i].arguments@[j]).name@
                    == b[i].arguments@[j].name@ && a[i].arguments@[j].value@
                    == b[i].arguments@[j].value@
        }
}

proof fn lemma_same_applied(a: Seq<Directive>, b: Seq<Directive>)
    requires
        directives_view(a) == directives_view(b),
    ensures
        same_applied(a, b),
{
    assert(directives_view(a).len() == a.len() && directives_view(b).len() == b.len());
    assert forall|i: int| 0 <= i < a.len() implies {
        &&& (#[trigger] a[i]).name@ == b[i].name@
        &&& a[i].arguments@.len() == b[i].arguments@.len()
        &&& forall|j: int|
            0 <= j < a[i].arguments@.len() ==> (#[trigger] a[i].arguments@[j]).name@
                == b[i].arguments@[j].name@ && a[i].arguments@[j].value@
                == b[i].arguments@[j].value@
    } by {
        assert(directives_view(a)[i] == directive_view(a[i]));
        assert(directives_view(b)[i] == directive_view(b[i]));
        let x = directive_view(a[i]).arguments;
        let y = directive_view(b[i]).arguments;
        assert(x == y);
        assert(x.len() == a[i].arguments@.len() && y.len() == b[i].arguments@.len());
        assert forall|j: int| 0 <= j < a[i].arguments@.len() implies (
        #[trigger] a[i].arguments@[j]).name@ == b[i].arguments@[j].name@
            && a[i].arguments@[j].value@ == b[i].arguments@[j].value@ by {
            assert(x[j] == y[j]);
        }
    }
}

/// The first of `fields` with the given name.
pub open spec fn field_named(fields: Seq<FieldDefinition>, name: Seq<char>) -> Option<
    FieldDefinition,
> {
    lookup::first_match(fields, field_has_name(name))
}

fn find_field<'a>(fields: &'a Vec<FieldDefinition>, name: &str) -> (result: Option<
    &'a FieldDefinition,
>)
    ensures
        result == match field_named(fields@, name@) {
            Some(field) => Some(&field),
            None => None,
        },
{
    let ghost p = field_has_name(name@);
    assert(fields@.skip(0) =~= fields@);
    let mut i: usize = 0;
    while i < fields.len()
        invariant
            i <= fields.len(),
            p == field_has_name(name@),
            field_named(fields@, name@) == lookup::first_match(fields@.skip(i as int), p),
        decreases fields.len() - i,
    {
        proof {
            lookup::lemma_first_match_step(fields@, p, i as int);
        }
        if same_text(fields[i].name.as_str(), name) {
            return Some(&fields[i]);
        }
        i += 1;
    }
    None
}

/// A schema: its types by name, the name of its query type, and the fields that every schema has.
pub struct Schema {
    pub types: NameMap<ExtendedType>,
    pub query: Option<NamedType>,
    pub meta_fields: MetaFieldDefinitions,
}

/// The fields that are there without a definition in the schema: `__typename` on every type that
/// fields are selected from, `__schema` and `__type` on the query type.
#[derive(Debug)]
pub struct MetaFieldDefinitions {
    pub typename: FieldDefinition,
    pub schema: FieldDefinition,
    pub type_: FieldDefinition,
}

/// Whether a field has nothing but the given name, arguments and type.
pub open spec fn plain_field(
    field: FieldDefinition,
    name: Seq<char>,
    arguments: Seq<InputValueDefinition>,
) -> bool {
    &&& field.description is None
    &&& field.name@ == name
    &&& field.arguments@ == arguments
    &&& field.directives@.len() == 0
}

impl MetaFieldDefinitions {
    /// The fields that are there without a definition: `__typename: String!`,
    /// `__schema: __Schema!` and `__type(name: String!): __Type`.
    pub fn new() -> (result: MetaFieldDefinitions)
        ensures
            plain_field(result.typename, "__typename"@, Seq::empty()),
            result.typename.ty matches Type::NonNullNamed(name) && name@ == "String"@,
            plain_field(result.schema, "__schema"@, Seq::empty()),
            result.schema.ty matches Type::NonNullNamed(name) && name@ == "__Schema"@,
            plain_field(result.type_, "__type"@, result.type_.arguments@),
            result.type_.ty matches Type::Named(name) && name@ == "__Type"@,
            result.type_.arguments@.len() == 1,
            result.type_.arguments@[0].description is None,
            result.type_.arguments@[0].name@ == "name"@,
            result.type_.arguments@[0].ty matches Type::NonNullNamed(name) && name@ == "String"@,
            result.type_.arguments@[0].default_value is None,
    {
        let mut arguments: Vec<InputValueDefinition> = Vec::new();
        arguments.push(
            InputValueDefinition {
                description: None,
                name: "name".to_owned(),
                ty: Type::NonNullNamed("String".to_owned()),
                default_value: None,
            },
        );
        MetaFieldDefinitions {
            typename: FieldDefinition {
                description: None,
                name: "__typename".to_owned(),
                arguments: Vec::new(),
                ty: Type::NonNullNamed("String".to_owned()),
                directives: Vec::new(),
            },
            schema: FieldDefinition {
                description: None,
                name: "__schema".to_owned(),
                arguments: Vec::new(),
                ty: Type::NonNullNamed("__Schema".to_owned()),
                directives: Vec::new(),
            },
            type_: FieldDefinition {
                description: None,
                name: "__type".to_owned(),
                arguments,
                ty: Type::Named("__Type".to_owned()),
                directives: Vec::new(),
            },
        }
    }
}

/// The field that a type defines itself under the given name.
pub open spec fn explicit_field(ty: ExtendedType, field_name: Seq<char>) -> Option<
    FieldDefinition,
> {
    match ty {
        ExtendedType::Object(object) => field_named(object.fields@, field_name),
        ExtendedType::Interface(interface) => field_named(interface.fields@, field_name),
        _ => None,
    }
}

/// The fields that a type defines itself: only object types and interface types define any.
pub open spec fn fields_in(ty: ExtendedType) -> Seq<FieldDefinition> {
    match ty {
        ExtendedType::Object(object) => object.fields@,
        ExtendedType::Interface(interface) => interface.fields@,
        _ => Seq::empty(),
    }
}

/// The field of a type with a name: the first that the type defines under that name, wherever it
/// defines one. Otherwise there is `__typename` on object, interface and union types, and `__schema`
/// and `__type` on the query type, and no other field. An undefined type has no field.
pub proof fn lemma_field_of(schema: Schema, parent_type: Seq<char>, name: Seq<char>)
    ensures
        !schema.types@.contains_key(parent_type) ==> schema.field_of(parent_type, name) is None,
        schema.types@.contains_key(parent_type) ==> {
            let ty = schema.types@[parent_type];
            let defined = fields_in(ty);
            &&& forall|i: int|
                0 <= i < defined.len() && (#[trigger] defined[i]).name@ == name && (forall|j: int|
                    0 <= j < i ==> (#[trigger] defined[j]).name@ != name) ==> schema.field_of(
                    parent_type,
                    name,
                ) == Some(defined[i])
            &&& (forall|i: int| 0 <= i < defined.len() ==> (#[trigger] defined[i]).name@ != name)
                ==> {
                let on_query = schema.query matches Some(query) && query@ == parent_type;
                &&& name == "__typename"@ && (ty is Object || ty is Interface || ty is Union)
                    ==> schema.field_of(parent_type, name) == Some(schema.meta_fields.typename)
                &&& name == "__typename"@ && !(ty is Object || ty is Interface || ty is Union)
                    ==> schema.field_of(parent_type, name) is None
                &&& name == "__schema"@ && on_query ==> schema.field_of(parent_type, name) == Some(
                    schema.meta_fields.schema,
                )
                &&& name == "__type"@ && on_query ==> schema.field_of(parent_type, name) == Some(
                    schema.meta_fields.type_,
                )
                &&& name != "__typename"@ && !on_query ==> schema.field_of(parent_type, name)
                    is None
                &&& name != "__typename"@ && name != "__schema"@ && name != "__type"@
                    ==> schema.field_of(parent_type, name) is None
            }
        },
{
    reveal_strlit("__typename");
    reveal_strlit("__schema");
    reveal_strlit("__type");
    assert("__typename"@.len() != "__schema"@.len());
    assert("__typename"@.len() != "__type"@.len());
    assert("__schema"@.len() != "__type"@.len());
    if schema.types@.contains_key(parent_type) {
        let ty = schema.types@[parent_type];
        lemma_field_named(fields_in(ty), name);
    }
}

/// A type is of exactly one kind: leaf types are scalars and enums, composite types are objects,
/// interfaces and unions, and the others are input objects.
pub proof fn lemma_kinds(ty: ExtendedType)
    ensures
        ty.is_leaf() <==> ty is Scalar || ty is Enum,
        ty.is_composite() <==> ty is Object || ty is Interface || ty is Union,
        !ty.is_leaf() && !ty.is_composite() <==> ty is InputObject,
        leaf_view(ty) is Some <==> ty.is_leaf(),
{
}

impl Schema {
    /// The type with the given name.
    pub open spec fn type_called(&self, name: Seq<char>) -> Option<ExtendedType> {
        names::lookup(self.types@, name)
    }

    /// The field with the given name of the type with the given name: one that the type defines,
    /// or else one that is there without a definition.
    pub open spec fn field_of(&self, parent_type: Seq<char>, field_name: Seq<char>) -> Option<
        FieldDefinition,
    > {
        match self.type_called(parent_type) {
            None => None,
            Some(ty) => match explicit_field(ty, field_name) {
                Some(field) => Some(field),
                None => if field_name == "__typename"@ && ty.is_composite() {
                    Some(self.meta_fields.typename)
                } else if optional_text(self.query) != Some(parent_type) {
                    None
                } else if field_name == "__schema"@ {
                    Some(self.meta_fields.schema)
                } else if field_name == "__type"@ {
                    Some(self.meta_fields.type_)
                } else {
                    None
                },
            },
        }
    }

    /// The field with the given name of the type with the given name: one that the type defines,
    /// or else one that is there without a definition.
    pub fn type_field(&self, parent_type: &str, field_name: &str) -> (result: Option<
        &FieldDefinition,
    >)
        ensures
            result == match self.field_of(parent_type@, field_name@) {
                Some(field) => Some(&field),
                None => None,
            },
    {
        let ty = match self.types.get(parent_type) {
            Some(ty) => ty,
            None => {
                return None;
            },
        };
        let explicit = match ty {
            ExtendedType::Object(object) => find_field(&object.fields, field_name),
            ExtendedType::Interface(interface) => find_field(&interface.fields, field_name),
            _ => None,
        };
        if explicit.is_some() {
            return explicit;
        }
        if same_text(field_name, "__typename") && ty.is_composite() {
            return Some(&self.meta_fields.typename);
        }
        let on_query = match &self.query {
            Some(query) => same_text(query.as_str(), parent_type),
            None => false,
        };
        if !on_query {
            None
        } else if same_text(field_name, "__schema") {
            Some(&self.meta_fields.schema)
        } else if same_text(field_name, "__type") {
            Some(&self.meta_fields.type_)
        } else {
            None
        }
    }
}

} // verus!
