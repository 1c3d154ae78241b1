//! Renders the labelled secrets of a vault item as JSON, dotenv lines or POSIX
//! shell `export` statements, and plans the import of a dotenv file into an
//! item, one `KEY=VALUE` assignment at a time.
//!
//! The library neither starts the secrets manager nor reads files: it takes
//! the fields that were fetched and the bytes that were read, and hands text
//! and decisions back.

pub mod error;
pub mod escape;
pub mod field;
pub mod format;
pub mod import;
pub mod json;
pub mod merge;
pub mod order;
pub mod outside;
pub mod render;
pub mod tool;
