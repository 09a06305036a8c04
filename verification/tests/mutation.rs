use graphql_core::ast::{
    Definition, Document, FieldDefinition, FragmentDefinition, ObjectTypeDefinition, Type,
};
use graphql_core::mutation::{add_field_at, AddField, Generator, Mutation};

fn text(s: &str) -> String {
    s.to_string()
}

fn definition(name: &str) -> FieldDefinition {
    FieldDefinition {
        description: None,
        name: text(name),
        arguments: vec![],
        ty: Type::Named(text("String")),
        directives: vec![],
    }
}

fn object(name: &str, fields: &[&str]) -> Definition {
    Definition::ObjectTypeDefinition(ObjectTypeDefinition {
        description: Some(text("words")),
        name: text(name),
        implements_interfaces: vec![text("Named")],
        directives: vec![],
        fields: fields.iter().map(|field| definition(field)).collect(),
    })
}

fn document() -> Document {
    Document {
        definitions: vec![
            object("A", &["x"]),
            Definition::FragmentDefinition(FragmentDefinition {
                name: text("F"),
                type_condition: text("A"),
                directives: vec![],
                selection_set: vec![],
            }),
            object("B", &["y", "z"]),
            Definition::Other(text("scalar Date")),
        ],
    }
}

fn fields(doc: &Document, place: usize) -> Vec<String> {
    match &doc.definitions[place] {
        Definition::ObjectTypeDefinition(object) => {
            object.fields.iter().map(|field| field.name.clone()).collect()
        }
        _ => vec![],
    }
}

/// Draws what it is told, and writes down what it was asked for.
struct Script {
    place: Option<usize>,
    fail_at: usize,
    asked: Vec<String>,
}

impl Script {
    fn ask(&mut self, what: &str) -> Result<usize, arbitrary::Error> {
        self.asked.push(text(what));
        if self.asked.len() == self.fail_at {
            Err(arbitrary::Error::NotEnoughData)
        } else {
            Ok(self.asked.len())
        }
    }
}

impl Generator for Script {
    fn object_type_definition(&mut self, _doc: &Document) -> Result<Option<usize>, arbitrary::Error> {
        self.ask("object")?;
        Ok(self.place)
    }

    fn field_definition(&mut self) -> Result<FieldDefinition, arbitrary::Error> {
        let count = self.ask("field")?;
        Ok(definition(&format!("drawn{}", count)))
    }

    fn arbitrary_unique_name(&mut self, existing: &Vec<&String>) -> Result<String, arbitrary::Error> {
        let names: Vec<&str> = existing.iter().map(|name| name.as_str()).collect();
        self.ask(&format!("name besides {}", names.join(",")))?;
        Ok(text("unique"))
    }

    fn wrap_ty(&mut self, name: String) -> Result<Type, arbitrary::Error> {
        self.ask(&format!("type {}", name))?;
        Ok(Type::Named(name))
    }
}

fn script(place: Option<usize>, fail_at: usize) -> Script {
    Script { place, fail_at, asked: vec![] }
}

#[test]
fn field_is_added_behind_the_others() {
    let mut doc = document();
    let mut u = script(Some(2), 0);
    assert_eq!(AddField.apply(&mut u, &mut doc), Ok(()));
    assert_eq!(fields(&doc, 2), vec!["y", "z", "drawn5"]);
    assert_eq!(u.asked, vec!["object", "field", "name besides y,z", "type B", "field"]);
}

#[test]
fn nothing_else_changes() {
    let mut doc = document();
    assert_eq!(AddField.apply(&mut script(Some(0), 0), &mut doc), Ok(()));
    assert_eq!(doc.definitions.len(), 4);
    assert!(matches!(&doc.definitions[3], Definition::Other(words) if words == "scalar Date"));
    assert_eq!(fields(&doc, 0), vec!["x", "drawn5"]);
    assert_eq!(fields(&doc, 2), vec!["y", "z"]);
    match &doc.definitions[0] {
        Definition::ObjectTypeDefinition(object) => {
            assert_eq!(object.name, "A");
            assert_eq!(object.description, Some(text("words")));
            assert_eq!(object.implements_interfaces, vec!["Named"]);
        }
        _ => unreachable!(),
    }
}

#[test]
fn without_an_object_type_nothing_changes() {
    for place in [None, Some(1), Some(3), Some(4)] {
        let mut doc = document();
        let mut u = script(place, 0);
        assert_eq!(AddField.apply(&mut u, &mut doc), Ok(()));
        assert_eq!(u.asked, vec!["object"]);
        assert_eq!(fields(&doc, 0), vec!["x"]);
        assert_eq!(fields(&doc, 2), vec!["y", "z"]);
    }
}

#[test]
fn failed_draw_leaves_the_document() {
    for fail_at in 1..6 {
        let mut doc = document();
        let mut u = script(Some(0), fail_at);
        assert_eq!(AddField.apply(&mut u, &mut doc), Err(arbitrary::Error::NotEnoughData));
        assert_eq!(u.asked.len(), fail_at);
        assert_eq!(fields(&doc, 0), vec!["x"]);
        assert_eq!(fields(&doc, 2), vec!["y", "z"]);
    }
}

#[test]
fn field_can_be_added_at_a_place() {
    let mut doc = document();
    add_field_at(&mut doc, 0, definition("new"));
    assert_eq!(fields(&doc, 0), vec!["x", "new"]);
}

#[test]
fn add_field_is_meant_to_keep_documents_valid() {
    assert!(AddField.is_valid());
}
