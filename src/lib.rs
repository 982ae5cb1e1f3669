//! A document-mapping layer over a key-value store.
//!
//! The library holds the logic of the mapping: the value algebra that stored
//! documents are compared in, the query engine that filters, sorts and pages
//! a scanned collection, the bookkeeping of schema migrations, and the
//! field-level validators. Talking to the store itself is left to the caller,
//! who hands the library plain values and takes plain values back.

pub mod error;
pub mod migration;
pub mod model;
pub mod query;
pub mod text;
pub mod validation;
pub mod value;

pub use error::{Error, Result};
pub use migration::{
    calculate_checksum, AppliedMigrations, Migration, MigrationFile, MigrationManager,
    MigrationStatus, RollbackStep,
};
pub use model::{collection_pattern, default_limit, found_or_missing, record_key, MIGRATIONS_KEY};
pub use query::{Query, QueryBuilder, SortOrder};
pub use validation::{ValidationError, ValidationErrors, Validator, Validators};
pub use value::Value;
