//! What validation knows besides the selection set it looks at.
use vstd::prelude::*;

use crate::ast::{FileId, FragmentDefinition, Name, Type, Value};
use crate::names::NameMap;
use crate::schema::Schema;

verus! {

/// The named fragments of one document.
pub type NamedFragments = NameMap<FragmentDefinition>;

/// The named fragments of one source file.
pub struct FileFragments {
    pub file_id: FileId,
    pub fragments: NamedFragments,
}

/// The schema, and the named fragments of every source file.
pub struct ValidationDatabase {
    pub schema: Schema,
    pub files: Vec<FileFragments>,
    pub no_fragments: NamedFragments,
}

/// The named fragments that `files` gives for a file, `otherwise` where it gives none.
pub open spec fn fragments_in(
    files: Seq<FileFragments>,
    file_id: FileId,
    otherwise: Map<Seq<char>, FragmentDefinition>,
) -> Map<Seq<char>, FragmentDefinition>
    decreases files.len(),
{
    if files.len() == 0 {
        otherwise
    } else if files.last().file_id == file_id {
        files.last().fragments@
    } else {
        fragments_in(files.drop_last(), file_id, otherwise)
    }
}

impl ValidationDatabase {
    /// The named fragments of a file: those last added for it, none for a file never added.
    pub open spec fn fragments_of(&self, file_id: FileId) -> Map<Seq<char>, FragmentDefinition> {
        fragments_in(self.files@, file_id, self.no_fragments@)
    }

    /// Every file has finitely many named fragments. This holds of every database that is built.
    pub open spec fn finite(&self) -> bool {
        forall|file_id: FileId| (#[trigger] self.fragments_of(file_id)).dom().finite()
    }

    /// A database that knows the schema and no file.
    pub fn new(schema: Schema) -> (result: Self)
        ensures
            result.schema == schema,
            forall|file_id: FileId| #[trigger]
                result.fragments_of(file_id) == Map::<Seq<char>, FragmentDefinition>::empty(),
    {
        ValidationDatabase { schema, files: Vec::new(), no_fragments: NameMap::new() }
    }

    /// Adds a file with its named fragments.
    pub fn add_file(&mut self, file_id: FileId, fragments: NamedFragments)
        ensures
            final(self).schema == old(self).schema,
            final(self).fragments_of(file_id) == fragments@,
            forall|other: FileId|
                other != file_id ==> #[trigger] final(self).fragments_of(other) == old(
                    self,
                ).fragments_of(other),
    {
        let ghost before = self.files@;
        self.files.push(FileFragments { file_id, fragments });
        assert(self.files@.drop_last() =~= before);
    }

    /// The named fragments of a file.
    pub fn ast_named_fragments(&self, file_id: FileId) -> (result: &NamedFragments)
        ensures
            result@ == self.fragments_of(file_id),
    {
        let mut i: usize = self.files.len();
        assert(self.files@.take(i as int) =~= self.files@);
        while i > 0
            invariant
                i <= self.files.len(),
                self.fragments_of(file_id) == fragments_in(
                    self.files@.take(i as int),
                    file_id,
                    self.no_fragments@,
                ),
            decreases i,
        {
            i -= 1;
            assert(self.files@.take(i + 1).drop_last() =~= self.files@.take(i as int));
            if self.files[i].file_id == file_id {
                return &self.files[i].fragments;
            }
        }
        &self.no_fragments
    }
}

/// A variable that an operation declares.
#[derive(Debug)]
pub struct VariableDefinition {
    pub name: Name,
    pub ty: Type,
    pub default_value: Option<Value>,
}

/// What the rules on selections know of the operation around them.
#[derive(Debug)]
pub struct OperationValidationConfig {
    /// Whether there is a schema to validate against.
    pub has_schema: bool,
    /// The variables that the operation declares.
    pub variables: Vec<VariableDefinition>,
}

} // verus!
