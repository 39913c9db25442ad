//! Extracts a schema model from annotated declaration text and builds a
//! JSON Schema description from it.
pub mod text;
pub mod types;
pub mod parser;
pub mod scan;
pub mod hierarchy;
pub mod schema;
pub mod laws;
pub mod json;
pub mod render;

