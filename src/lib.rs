//! Operator types of a model-description XML document.
//!
//! `tree` models a parsed document and walks it in pre-order for the `type`
//! of every `layer` element; `aggregate` turns those names into the sorted
//! distinct names or the sorted per-name counts; `report` renders the
//! summary and decides where it goes; `text` holds the string helpers.

pub mod text;
pub mod tree;
pub mod aggregate;
pub mod report;
