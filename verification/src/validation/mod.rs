//! Validation of selection sets.
pub mod accepted;
pub mod agree;
pub mod arguments;
pub mod fields;
pub mod merge;
pub mod merged;
pub mod pairs;
pub mod reach;
pub mod selection;
pub mod settled;
pub mod shape;
