//! Operations and fragments that are ready to be executed: every field comes with its definition.
use vstd::prelude::*;

use crate::ast::{Argument, Directive, FieldDefinition, Name, NamedType, NodeLocation, Type};
use crate::execution::error::SourceMap;
use crate::names::NameMap;

verus! {

/// Selections, and the type that they select from.
#[derive(Debug)]
pub struct SelectionSet {
    pub ty: NamedType,
    pub selections: Vec<Selection>,
}

/// One member of a selection set.
#[derive(Debug)]
pub enum Selection {
    Field(Field),
    FragmentSpread(FragmentSpread),
    InlineFragment(InlineFragment),
}

/// A field selected from a type, with its definition in that type.
#[derive(Debug)]
pub struct Field {
    pub definition: FieldDefinition,
    pub alias: Option<Name>,
    pub name: Name,
    pub name_location: Option<NodeLocation>,
    pub arguments: Vec<Argument>,
    pub directives: Vec<Directive>,
    pub selection_set: SelectionSet,
}

/// The use of a named fragment.
#[derive(Debug)]
pub struct FragmentSpread {
    pub fragment_name: Name,
    pub directives: Vec<Directive>,
}

/// A fragment written where it is used. Without a type condition it applies to every object.
#[derive(Debug)]
pub struct InlineFragment {
    pub type_condition: Option<NamedType>,
    pub directives: Vec<Directive>,
    pub selection_set: SelectionSet,
}

/// A named fragment.
#[derive(Debug)]
pub struct Fragment {
    pub name: Name,
    pub directives: Vec<Directive>,
    pub selection_set: SelectionSet,
}

/// What a request may refer to: its named fragments, and where its parts were written.
pub struct ExecutableDocument {
    pub sources: SourceMap,
    pub fragments: NameMap<Fragment>,
}

impl Field {
    /// The name under which the field stands in the response: its alias where it has one.
    pub open spec fn key(&self) -> Seq<char> {
        match self.alias {
            Some(alias) => alias@,
            None => self.name@,
        }
    }

    /// The name under which the field stands in the response: its alias where it has one.
    pub fn response_key(&self) -> (result: &Name)
        ensures
            result@ == self.key(),
    {
        match &self.alias {
            Some(alias) => alias,
            None => &self.name,
        }
    }

    /// The type of the field.
    pub fn ty(&self) -> (result: &Type)
        ensures
            *result == self.definition.ty,
    {
        &self.definition.ty
    }
}

impl Fragment {
    /// The type that the fragment selects from.
    pub fn type_condition(&self) -> (result: &NamedType)
        ensures
            *result == self.selection_set.ty,
    {
        &self.selection_set.ty
    }
}

impl Selection {
    /// The directives applied to the selection.
    pub open spec fn applied(&self) -> Seq<Directive> {
        match self {
            Selection::Field(field) => field.directives@,
            Selection::FragmentSpread(spread) => spread.directives@,
            Selection::InlineFragment(inline) => inline.directives@,
        }
    }

    /// The directives applied to the selection.
    pub fn directives(&self) -> (result: &Vec<Directive>)
        ensures
            result@ == self.applied(),
    {
        match self {
            Selection::Field(field) => &field.directives,
            Selection::FragmentSpread(spread) => &spread.directives,
            Selection::InlineFragment(inline) => &inline.directives,
        }
    }
}

/// The number of selections in a selection, inline fragments opened.
pub open spec fn selection_size(selection: Selection) -> nat
    decreases selection,
{
    match selection {
        Selection::InlineFragment(inline) => 1 + selections_size(inline.selection_set.selections@),
        _ => 1,
    }
}

/// The number of selections in selections, inline fragments opened.
pub open spec fn selections_size(selections: Seq<Selection>) -> nat
    decreases selections,
{
    if selections.len() == 0 {
        0
    } else {
        selection_size(selections[0]) + selections_size(selections.skip(1))
    }
}

/// The size of selections before others is the sum of the sizes.
pub proof fn lemma_selections_size(first: Seq<Selection>, second: Seq<Selection>)
    ensures
        selections_size(first + second) == selections_size(first) + selections_size(second),
    decreases first.len(),
{
    if first.len() == 0 {
        assert(first + second =~= second);
    } else {
        assert((first + second).skip(1) =~= first.skip(1) + second);
        lemma_selections_size(first.skip(1), second);
    }
}

/// The size of selections is the size of the first, which is at least one, and that of the others.
pub proof fn lemma_first_size(selections: Seq<Selection>)
    requires
        selections.len() > 0,
    ensures
        selections_size(selections) == selection_size(selections[0]) + selections_size(
            selections.skip(1),
        ),
        selection_size(selections[0]) == match selections[0] {
            Selection::InlineFragment(inline) => 1 + selections_size(
                inline.selection_set.selections@,
            ),
            _ => 1,
        },
{
}

/// No selection is larger than the selections it is one of.
pub proof fn lemma_selection_size(selections: Seq<Selection>, i: int)
    requires
        0 <= i < selections.len(),
    ensures
        selection_size(selections[i]) <= selections_size(selections),
    decreases i,
{
    if i > 0 {
        assert(selections.skip(1)[i - 1] == selections[i]);
        lemma_selection_size(selections.skip(1), i - 1);
    }
}

} // verus!
