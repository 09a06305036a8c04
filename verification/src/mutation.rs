//! Random changes to a document.
use vstd::prelude::*;

use crate::ast::{Definition, Document, FieldDefinition, Name, ObjectTypeDefinition, Type};

verus! {

/// The error of a generator that cannot go on. It is passed on as it is.
#[verifier::external_type_specification]
#[verifier::external_body]
pub struct ExError(arbitrary::Error);

/// A source of random parts of documents. Nothing is known here of what it draws.
pub trait Generator: Sized {
    /// The place of an object type among the definitions of the document, if it picks one.
    fn object_type_definition(&mut self, doc: &Document) -> Result<Option<usize>, arbitrary::Error>;

    /// The definition of a field.
    fn field_definition(&mut self) -> Result<FieldDefinition, arbitrary::Error>;

    /// A name that is none of the given names.
    fn arbitrary_unique_name(&mut self, existing: &Vec<&Name>) -> Result<Name, arbitrary::Error>;

    /// The named type, in any lists.
    fn wrap_ty(&mut self, name: Name) -> Result<Type, arbitrary::Error>;
}

/// A change to a document.
pub trait Mutation {
    /// Changes the document as the generator decides.
    fn apply<G: Generator>(&self, u: &mut G, doc: &mut Document) -> Result<(), arbitrary::Error>;

    /// Whether the change is meant to keep a valid document valid.
    fn is_valid(&self) -> bool;
}

/// The object type with one more field, behind those it has.
pub open spec fn with_field(
    before: ObjectTypeDefinition,
    field: FieldDefinition,
    after: ObjectTypeDefinition,
) -> bool {
    &&& after.description == before.description
    &&& after.name == before.name
    &&& after.implements_interfaces == before.implements_interfaces
    &&& after.directives == before.directives
    &&& after.fields@ == before.fields@.push(field)
}

/// Whether `after` is the document `before` with one more field in the object type at `place`, and
/// nothing else changed.
pub open spec fn with_field_at(
    before: Document,
    place: int,
    field: FieldDefinition,
    after: Document,
) -> bool {
    &&& before.definitions@[place] is ObjectTypeDefinition
    &&& after.definitions@[place] is ObjectTypeDefinition
    &&& with_field(
        before.definitions@[place]->ObjectTypeDefinition_0,
        field,
        after.definitions@[place]->ObjectTypeDefinition_0,
    )
    &&& after.definitions@ == before.definitions@.update(place, after.definitions@[place])
}

/// Whether an object type stands at the place.
pub open spec fn object_type_at(doc: Document, place: int) -> bool {
    0 <= place < doc.definitions@.len() && doc.definitions@[place] is ObjectTypeDefinition
}

/// A document with one more field in an object type has as many definitions, and all others are as
/// they were. The object type has its fields where they were, the new one behind them, and is the
/// same in everything else.
pub proof fn lemma_with_field_at(
    before: Document,
    place: int,
    field: FieldDefinition,
    after: Document,
)
    requires
        object_type_at(before, place),
        with_field_at(before, place, field, after),
    ensures
        after.definitions@.len() == before.definitions@.len(),
        forall|i: int|
            0 <= i < before.definitions@.len() && i != place ==> #[trigger] after.definitions@[i]
                == before.definitions@[i],
        after.definitions@[place] is ObjectTypeDefinition,
        ({
            let then = after.definitions@[place]->ObjectTypeDefinition_0;
            let first = before.definitions@[place]->ObjectTypeDefinition_0;
            &&& then.name == first.name
            &&& then.description == first.description
            &&& then.implements_interfaces == first.implements_interfaces
            &&& then.directives == first.directives
            &&& then.fields@.len() == first.fields@.len() + 1
            &&& forall|i: int|
                0 <= i < first.fields@.len() ==> #[trigger] then.fields@[i] == first.fields@[i]
            &&& then.fields@[first.fields@.len() as int] == field
        }),
{
}

/// A field can be added at every place where an object type is defined, and at no other.
pub proof fn lemma_object_type_at(doc: Document, place: int)
    ensures
        object_type_at(doc, place) <==> 0 <= place < doc.definitions@.len() && exists|
            object: ObjectTypeDefinition,
        | doc.definitions@[place] == Definition::ObjectTypeDefinition(object),
{
    if object_type_at(doc, place) {
        let object = doc.definitions@[place]->ObjectTypeDefinition_0;
        assert(doc.definitions@[place] == Definition::ObjectTypeDefinition(object));
    }
}

/// Adds a field to the object type at the given place, behind those it has.
pub fn add_field_at(doc: &mut Document, place: usize, field: FieldDefinition)
    requires
        object_type_at(*old(doc), place as int),
    ensures
        with_field_at(*old(doc), place as int, field, *final(doc)),
{
    match &mut doc.definitions[place] {
        Definition::ObjectTypeDefinition(object) => {
            object.fields.push(field);
        },
        _ => {},
    }
}

/// Whether `existing` are the names of the fields, in their order.
pub open spec fn are_names_of(existing: Seq<&Name>, fields: Seq<FieldDefinition>) -> bool {
    existing.len() == fields.len() && forall|i: int|
        0 <= i < fields.len() ==> *(#[trigger] existing[i]) == fields[i].name
}

/// The names of fields are as many as the fields, each at the place of its field.
pub proof fn lemma_are_names_of(existing: Seq<&Name>, fields: Seq<FieldDefinition>)
    requires
        are_names_of(existing, fields),
    ensures
        existing.len() == fields.len(),
        forall|i: int| 0 <= i < fields.len() ==> *(#[trigger] existing[i]) == fields[i].name,
{
}

fn field_names(fields: &Vec<FieldDefinition>) -> (result: Vec<&Name>)
    ensures
        are_names_of(result@, fields@),
{
    let mut names: Vec<&Name> = Vec::new();
    let mut i: usize = 0;
    while i < fields.len()
        invariant
            i <= fields.len(),
            names.len() == i,
            forall|j: int| 0 <= j < i ==> *(#[trigger] names@[j]) == fields@[j].name,
        decreases fields.len() - i,
    {
        names.push(&fields[i].name);
        i += 1;
    }
    names
}

/// Whether the change ended with the given error, and left the document as it was.
pub open spec fn failed_with(
    error: arbitrary::Error,
    result: Result<(), arbitrary::Error>,
    before: Document,
    after: Document,
) -> bool {
    result == Err::<(), arbitrary::Error>(error) && after == before
}

/// Adds a field to an object type.
pub struct AddField;

impl Mutation for AddField {
    /// Adds a field to the object type that the generator picks; without one the document stays as
    /// it is.
    ///
    /// A definition is drawn, then a name that the type does not have yet, then a type that refers
    /// to the object type itself. What is added is another definition, drawn after these. The first
    /// draw that fails ends the change, with the document as it was.
    fn apply<G: Generator>(&self, u: &mut G, doc: &mut Document) -> (result: Result<
        (),
        arbitrary::Error,
    >)
        ensures
            result is Err ==> *final(doc) == *old(doc),
            *final(doc) == *old(doc) || exists|place: int, field: FieldDefinition|
                object_type_at(*old(doc), place) && #[trigger] with_field_at(
                    *old(doc),
                    place,
                    field,
                    *final(doc),
                ),
            exists|u1: &mut G, picked: Result<Option<usize>, arbitrary::Error>|
                {
                    &&& *u1 == *old(u)
                    &&& #[trigger] call_ensures(G::object_type_definition, (u1, &*old(doc)), picked)
                    &&& match picked {
                        Err(error) => failed_with(error, result, *old(doc), *final(doc)) && *final(u)
                            == *final(u1),
                        Ok(None) => result is Ok && *final(doc) == *old(doc) && *final(u) == *final(u1),
                        Ok(Some(place)) => if !object_type_at(*old(doc), place as int) {
                            result is Ok && *final(doc) == *old(doc) && *final(u) == *final(u1)
                        } else {
                            let object =
                                old(doc).definitions@[place as int]->ObjectTypeDefinition_0;
                            exists|u2: &mut G, prepared: Result<FieldDefinition, arbitrary::Error>|
                                {
                                    &&& *u2 == *final(u1)
                                    &&& #[trigger] call_ensures(
                                        G::field_definition,
                                        (u2,),
                                        prepared,
                                    )
                                    &&& match prepared {
                                        Err(error) => failed_with(
                                            error,
                                            result,
                                            *old(doc),
                                            *final(doc),
                                        ) && *final(u) == *final(u2),
                                        Ok(_) => exists|
                                            u3: &mut G,
                                            existing: Vec<&Name>,
                                            name: Result<Name, arbitrary::Error>,
                                        |
                                            {
                                                &&& *u3 == *final(u2)
                                                &&& are_names_of(existing@, object.fields@)
                                                &&& #[trigger] call_ensures(
                                                    G::arbitrary_unique_name,
                                                    (u3, &existing),
                                                    name,
                                                )
                                                &&& match name {
                                                    Err(error) => failed_with(
                                                        error,
                                                        result,
                                                        *old(doc),
                                                        *final(doc),
                                                    ) && *final(u) == *final(u3),
                                                    Ok(_) => exists|
                                                        u4: &mut G,
                                                        own_name: Name,
                                                        ty: Result<Type, arbitrary::Error>,
                                                    |
                                                        {
                                                            &&& *u4 == *final(u3)
                                                            &&& own_name@ == object.name@
                                                            &&& #[trigger] call_ensures(
                                                                G::wrap_ty,
                                                                (u4, own_name),
                                                                ty,
                                                            )
                                                            &&& match ty {
                                                                Err(error) => failed_with(
                                                                    error,
                                                                    result,
                                                                    *old(doc),
                                                                    *final(doc),
                                                                ) && *final(u) == *final(u4),
                                                                Ok(_) => exists|
                                                                    u5: &mut G,
                                                                    drawn: Result<
                                                                        FieldDefinition,
                                                                        arbitrary::Error,
                                                                    >,
                                                                |
                                                                    {
                                                                        &&& *u5 == *final(u4)
                                                                        &&& #[trigger] call_ensures(
                                                                            G::field_definition,
                                                                            (u5,),
                                                                            drawn,
                                                                        )
                                                                        &&& *final(u) == *final(u5)
                                                                        &&& match drawn {
                                                                            Err(error) =>
                                                                                failed_with(
                                                                                error,
                                                                                result,
                                                                                *old(doc),
                                                                                *final(doc),
                                                                            ),
                                                                            Ok(field) => {
                                                                                &&& result is Ok
                                                                                &&& with_field_at(
                                                                                    *old(doc),
                                                                                    place as int,
                                                                                    field,
                                                                                    *final(doc),
                                                                                )
                                                                            },
                                                                        }
                                                                    },
                                                            }
                                                        },
                                                }
                                            },
                                    }
                                }
                        },
                    }
                },
    {
        let place = match u.object_type_definition(doc)? {
            Some(place) => place,
            None => {
                return Ok(());
            },
        };
        if place >= doc.definitions.len() {
            return Ok(());
        }
        match &doc.definitions[place] {
            Definition::ObjectTypeDefinition(object) => {
                let mut prepared = u.field_definition()?;
                let existing = field_names(&object.fields);
                prepared.name = u.arbitrary_unique_name(&existing)?;
                prepared.ty = u.wrap_ty(object.name.clone())?;
            },
            _ => {
                return Ok(());
            },
        }
        let field = u.field_definition()?;
        add_field_at(doc, place, field);
        Ok(())
    }

    /// The change is meant to keep a valid document valid.
    fn is_valid(&self) -> (result: bool)
        ensures
            result,
    {
        true
    }
}

} // verus!
