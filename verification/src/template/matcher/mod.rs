//! Holding queries against templates.
pub mod query;
pub mod segments;
pub mod variable;
