pub mod key;
pub mod types;
pub mod btree;
pub mod error;
pub mod lsm;
pub mod database;
pub mod laws;

pub use database::{Database, DatabaseBuilder};
pub use error::DatabaseError;
pub use types::{DatabaseConfig, Entry, Key, OperationId, Value};
