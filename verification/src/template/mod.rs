//! Templates: what a query may look like.
pub mod matcher;
pub mod parser;
pub mod pattern;
pub mod variables;
