//! Execution of selection sets.
pub mod collect;
pub mod engine;
pub mod error;
pub mod executable;
pub mod groups;
pub mod json;
pub mod outcome;
pub mod reach;
