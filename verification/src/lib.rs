//! Schema migration by morphism composition.
//!
//! Schemas are the objects of a category and declared attribute renamings are
//! its morphisms. A record is migrated from one schema to another by finding
//! the shortest chain of morphisms between the two, composing the chain into
//! one attribute map, and renaming the record's fields through that map.

pub mod category;
pub mod composer;
pub mod engine;
pub mod error;
pub mod json;
pub mod laws;
pub mod resolver;
pub mod schema;

pub use category::SchemaCategory;
pub use composer::{compose_chain, ComposedMap};
pub use engine::{rename_fields, TransformEngine};
pub use error::{Diagnostic, TransformError};
pub use schema::{AttributeMap, SchemaMorphism, SchemaObject};
