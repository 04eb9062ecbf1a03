//! A small durable key-value store kept in a flat text file.
//!
//! A store maps string keys to JSON values. On disk it is a text file with one
//! record per line, `key=value`, the value written as JSON. Every save keeps
//! what the file held before as a backup named by the time of the save, and
//! removes the oldest backups so that their number stays bounded.
//!
//! The library reads and writes no file itself. It turns the text of a store
//! file into a store and back (`load_db`, `save_db`), says which backups are
//! to go (`retention`), and names, one after another, the filesystem
//! operations that make up a save (`saving`); the caller carries them out.

pub mod codec;
pub mod db;
pub mod error;
pub mod format;
pub mod retention;
pub mod saving;
pub mod store;
pub mod text;

pub use db::{load_db, save_db};
pub use error::{DBError, ErrorKind};
