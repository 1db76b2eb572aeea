//! A schema-driven data-definition loader.
//!
//! Text definitions are tokenized and parsed into a dynamically typed
//! [`SchemaValue`] tree, then bound to a static root type in two passes:
//! a sizing pass computes one packed arena layout together with a table of
//! byte offsets for every dynamically sized field, and a writing pass walks
//! the same tree in the same order, consuming the table while it fills the
//! arena. Serialization runs the inverse way, back to formatted text.

pub mod block;
pub mod digits;
pub mod engine;
pub mod format;
pub mod laws;
pub mod layout;
pub mod model;
pub mod parse;
pub mod records;
pub mod render;
pub mod schema;
pub mod schema_array;
pub mod schema_string;
pub mod schema_types;
pub mod tokens;
pub mod value;
