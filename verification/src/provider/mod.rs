//! Where query templates come from.
pub mod grafana;
pub mod url;
