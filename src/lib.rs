//! A small in-memory key-value server core: a decoder for framed requests,
//! a decoder for binary snapshot files, an expiring key-value store and the
//! execution of commands into reply bytes.

pub mod buffer;
pub mod rdb;
pub mod resp;
pub mod server;
pub mod store;

pub use rdb::{load_keys, parse_rdb, RDBData, RdbError};
pub use resp::{parse_command, Command};
pub use server::{execute, serve_buffer, Config};
pub use store::{Store, StoredValue};
