//! A small key-value store kept as an append-only text log, with a
//! line-oriented command language on top of it.

pub mod text;
pub mod db_error;
pub mod db_types;
pub mod journal;
pub mod db;
pub mod data_base;
pub mod parser;
pub mod server;

pub use db::Database;
pub use db_error::DbError;
pub use db_types::DataType;
pub use parser::parse_command;
