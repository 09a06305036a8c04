//! Errors in a response, and where in the response they occurred.
use vstd::prelude::*;

use crate::ast::{Name, NodeLocation};
use crate::execution::json::{JsonMap, JsonValue, JsonView};
use crate::lookup;

verus! {

/// One step from a response value to a value in it.
#[derive(Debug, PartialEq)]
pub enum ResponseDataPathElement {
    /// The field with this response name.
    Field(Name),
    /// The item at this place of a list.
    ListIndex(usize),
}

impl Clone for ResponseDataPathElement {
    fn clone(&self) -> (result: Self)
        ensures
            result == *self,
    {
        match self {
            ResponseDataPathElement::Field(name) => ResponseDataPathElement::Field(name.clone()),
            ResponseDataPathElement::ListIndex(index) => ResponseDataPathElement::ListIndex(*index),
        }
    }
}

/// A path in a response, from the innermost step outwards. The steps stay where they were made,
/// so that a path can be extended without copying it.
pub type LinkedPath<'a> = Option<&'a LinkedPathElement<'a>>;

/// The last step of a path, and the path to it.
#[derive(Debug)]
pub struct LinkedPathElement<'a> {
    pub element: ResponseDataPathElement,
    pub next: LinkedPath<'a>,
}

/// The steps of a path, from the outermost inwards.
pub open spec fn path_elements(link: LinkedPath<'_>) -> Seq<ResponseDataPathElement>
    decreases link,
{
    match link {
        None => Seq::empty(),
        Some(node) => path_elements(node.next).push(node.element),
    }
}

/// A path that is extended by a step has the same steps before it.
pub proof fn lemma_path_extends(path: LinkedPath<'_>, element: ResponseDataPathElement)
    ensures
        path_elements(Some(&LinkedPathElement { element, next: path })) == path_elements(path).push(
            element,
        ),
{
}

/// The steps of a path, from the outermost inwards.
pub fn path_to_vec(link: LinkedPath<'_>) -> (result: Vec<ResponseDataPathElement>)
    ensures
        result@ == path_elements(link),
{
    let mut inwards: Vec<ResponseDataPathElement> = Vec::new();
    let mut left = link;
    assert(path_elements(left) + inwards@.reverse() =~= path_elements(link));
    while left.is_some()
        invariant
            path_elements(left) + inwards@.reverse() == path_elements(link),
        decreases left,
    {
        let node = left.unwrap();
        let ghost before = inwards@;
        inwards.push(node.element.clone());
        left = node.next;
        proof {
            assert(inwards@.reverse() =~= seq![node.element] + before.reverse());
            assert(path_elements(left) + (seq![node.element] + before.reverse())
                =~= path_elements(left).push(node.element) + before.reverse());
        }
    }
    let mut path: Vec<ResponseDataPathElement> = Vec::new();
    assert(path_elements(left) =~= Seq::empty());
    assert(path@ + inwards@.reverse() =~= path_elements(link));
    while inwards.len() > 0
        invariant
            path@ + inwards@.reverse() == path_elements(link),
        decreases inwards.len(),
    {
        let ghost before = inwards@;
        let ghost path_before = path@;
        let element = inwards.pop().unwrap();
        path.push(element);
        proof {
            assert(before.reverse() =~= seq![element] + inwards@.reverse());
            assert(path@ + inwards@.reverse() =~= path_before + before.reverse());
        }
    }
    assert(path@ =~= path@ + inwards@.reverse());
    path
}

/// A place in a source file, by line and column.
#[derive(Clone, Copy, Debug, PartialEq, Eq, Structural)]
pub struct GraphQLLocation {
    pub line: usize,
    pub column: usize,
}

/// Where a part of a document stands in its source file.
#[derive(Clone, Copy, Debug, PartialEq, Eq, Structural)]
pub struct SourcePosition {
    pub node: NodeLocation,
    pub position: GraphQLLocation,
}

/// Whether a position is that of the given part.
pub open spec fn is_of(node: NodeLocation) -> spec_fn(SourcePosition) -> bool {
    |entry: SourcePosition| entry.node == node
}

/// Where the parts of the documents stand in their source files.
#[derive(Debug)]
pub struct SourceMap {
    pub positions: Vec<SourcePosition>,
}

impl SourceMap {
    /// The line and column of a part of a document, where they are known.
    pub open spec fn position_of(&self, location: Option<NodeLocation>) -> Option<GraphQLLocation> {
        match location {
            Some(location) => match lookup::first_match(
                self.positions@,
                is_of(location),
            ) {
                Some(entry) => Some(entry.position),
                None => None,
            },
            None => None,
        }
    }

    /// The line and column of a part of a document, where they are known.
    pub fn locate(&self, location: Option<NodeLocation>) -> (result: Option<GraphQLLocation>)
        ensures
            result == self.position_of(location),
    {
        let node = match location {
            Some(node) => node,
            None => {
                return None;
            },
        };
        let ghost p = is_of(node);
        assert(self.positions@.skip(0) =~= self.positions@);
        let mut i: usize = 0;
        while i < self.positions.len()
            invariant
                i <= self.positions.len(),
                location == Some(node),
                p == is_of(node),
                lookup::first_match(self.positions@, p) == lookup::first_match(
                    self.positions@.skip(i as int),
                    p,
                ),
            decreases self.positions.len() - i,
        {
            proof {
                lookup::lemma_first_match_step(self.positions@, p, i as int);
            }
            if self.positions[i].node == node {
                return Some(self.positions[i].position);
            }
            i += 1;
        }
        None
    }
}

/// A part of a document is found at the first position that is recorded for it. It is found nowhere
/// exactly where none is recorded for it, or where it is not known which part it is.
pub proof fn lemma_position_of(sources: SourceMap, location: Option<NodeLocation>)
    ensures
        location is None ==> sources.position_of(location) is None,
        location matches Some(node) ==> {
            let positions = sources.positions@;
            &&& sources.position_of(location) is None <==> forall|i: int|
                0 <= i < positions.len() ==> (#[trigger] positions[i]).node != node
            &&& forall|i: int|
                0 <= i < positions.len() && (#[trigger] positions[i]).node == node && (forall|
                    j: int,
                |
                    0 <= j < i ==> (#[trigger] positions[j]).node != node) ==> sources.position_of(
                    location,
                ) == Some(positions[i].position)
        },
{
    if let Some(node) = location {
        let positions = sources.positions@;
        let p = is_of(node);
        assert forall|i: int|
            0 <= i < positions.len() && (#[trigger] positions[i]).node == node && (forall|j: int|
                0 <= j < i ==> (#[trigger] positions[j]).node != node) implies sources.position_of(
            location,
        ) == Some(positions[i].position) by {
            lookup::lemma_is_first_match(positions, p, i);
        }
        lookup::lemma_first_match(positions, p);
        if sources.position_of(location) is None {
            assert forall|i: int| 0 <= i < positions.len() implies (
            #[trigger] positions[i]).node != node by {
                assert(!p(positions[i]));
            }
        } else {
            let i = lookup::lemma_first_match_at(positions, p);
            assert(positions[i].node == node);
        }
    }
}

/// An error in a response.
#[derive(Debug, PartialEq)]
pub struct GraphQLError {
    pub message: String,
    pub locations: Vec<GraphQLLocation>,
    pub path: Vec<ResponseDataPathElement>,
    pub extensions: JsonMap,
}

/// What a [`GraphQLError`] says.
pub struct ErrorView {
    pub message: Seq<char>,
    pub locations: Seq<GraphQLLocation>,
    pub path: Seq<ResponseDataPathElement>,
    pub extensions: Seq<(Seq<char>, JsonView)>,
}

impl View for GraphQLError {
    type V = ErrorView;

    open spec fn view(&self) -> ErrorView {
        ErrorView {
            message: self.message@,
            locations: self.locations@,
            path: self.path@,
            extensions: self.extensions@,
        }
    }
}

/// An error with the given message at the given place: its location where it is known, and no
/// extensions.
pub open spec fn error_at(
    message: Seq<char>,
    path: Seq<ResponseDataPathElement>,
    location: Option<NodeLocation>,
    sources: SourceMap,
) -> ErrorView {
    ErrorView {
        message,
        locations: match sources.position_of(location) {
            Some(position) => seq![position],
            None => Seq::empty(),
        },
        path,
        extensions: Seq::empty(),
    }
}

/// An error says what it is made of: its message, its path, and where it is known the one place in a
/// source file. It has no extensions.
pub proof fn lemma_error_at(
    message: Seq<char>,
    path: Seq<ResponseDataPathElement>,
    location: Option<NodeLocation>,
    sources: SourceMap,
)
    ensures
        error_at(message, path, location, sources).message == message,
        error_at(message, path, location, sources).path == path,
        error_at(message, path, location, sources).extensions.len() == 0,
        sources.position_of(location) is None ==> error_at(
            message,
            path,
            location,
            sources,
        ).locations.len() == 0,
        sources.position_of(location) matches Some(position) ==> error_at(
            message,
            path,
            location,
            sources,
        ).locations == seq![position],
{
}

/// A path has as many steps as there are links, and the step of each link stands before those of the
/// links that lead further in.
pub proof fn lemma_path_elements(path: LinkedPath<'_>)
    ensures
        path is None ==> path_elements(path).len() == 0,
        path matches Some(node) ==> {
            &&& path_elements(path).len() == path_elements(node.next).len() + 1
            &&& path_elements(path).last() == node.element
            &&& path_elements(path).drop_last() == path_elements(node.next)
        },
{
}

impl GraphQLError {
    /// An error that concerns the request as a whole.
    pub fn new(message: String, location: Option<NodeLocation>, sources: &SourceMap) -> (result:
        GraphQLError)
        ensures
            result@ == error_at(message@, Seq::empty(), location, *sources),
    {
        let mut locations: Vec<GraphQLLocation> = Vec::new();
        if let Some(position) = sources.locate(location) {
            locations.push(position);
        }
        assert(locations@ =~= error_at(message@, Seq::empty(), location, *sources).locations);
        GraphQLError { message, locations, path: Vec::new(), extensions: JsonMap::new() }
    }

    /// An error that occurred in the field at the given path.
    pub fn field_error(
        message: String,
        path: LinkedPath<'_>,
        location: Option<NodeLocation>,
        sources: &SourceMap,
    ) -> (result: GraphQLError)
        ensures
            result@ == error_at(message@, path_elements(path), location, *sources),
    {
        let mut err = GraphQLError::new(message, location, sources);
        err.path = path_to_vec(path);
        err
    }
}

/// Something that execution met although validation should have excluded it.
#[derive(Debug)]
pub struct SuspectedValidationBug {
    pub message: String,
    pub location: Option<NodeLocation>,
}

/// The extensions that mark an error as a suspected validation bug.
pub open spec fn validation_bug_mark() -> Seq<(Seq<char>, JsonView)> {
    seq![("APOLLO_SUSPECTED_VALIDATION_BUG"@, JsonView::Bool(true))]
}

impl SuspectedValidationBug {
    /// The error that reports the suspicion.
    pub fn into_graphql_error(self, sources: &SourceMap) -> (result: GraphQLError)
        ensures
            result@ == (ErrorView {
                extensions: validation_bug_mark(),
                ..error_at(self.message@, Seq::empty(), self.location, *sources)
            }),
    {
        let mut err = GraphQLError::new(self.message, self.location, sources);
        err.extensions.insert("APOLLO_SUSPECTED_VALIDATION_BUG", JsonValue::Bool(true));
        assert(err.extensions@ =~= validation_bug_mark());
        err
    }

    /// The error that reports the suspicion, in the field at the given path.
    pub fn into_field_error(self, sources: &SourceMap, path: LinkedPath<'_>) -> (result:
        GraphQLError)
        ensures
            result@ == (ErrorView {
                extensions: validation_bug_mark(),
                ..error_at(self.message@, path_elements(path), self.location, *sources)
            }),
    {
        let mut err = self.into_graphql_error(sources);
        err.path = path_to_vec(path);
        err
    }
}

} // verus!
