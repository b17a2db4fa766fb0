//! An in-memory relational row store: typed schemas planned into fixed-width
//! byte rows, a length-prefixed heap for strings, and a query engine that
//! expands one-to-many relations between tables.

pub mod arena;
pub mod codec;
pub mod database;
pub mod engine;
pub mod errors;
pub mod laws;
pub mod layout;
pub mod query;
pub mod table;
pub mod types;

pub use database::Database;
pub use errors::{EncodeError, SchemaError, StorageError};
pub use table::{Query, Table, View};
pub use types::{Column, ColumnType, Field, FieldType, Relation, RelationType, Value};
