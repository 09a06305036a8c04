//! Selection handling for GraphQL documents: checking that the fields of a selection set can be
//! merged, collecting and executing the fields of a selection set, and growing a schema document
//! by one field.
pub mod ast;
pub mod database;
pub mod diagnostics;
pub mod execution;
pub mod grouping;
pub mod lookup;
pub mod mutation;
pub mod names;
pub mod schema;
pub mod validation;
