//! An embedded, single-table storage engine: a fixed-schema table kept in
//! 4096-byte pages, with a binary row format and sorted leaf pages.

pub mod errors;
pub mod encoding;
pub mod datatype;
pub mod codec;
pub mod layout;
pub mod tree;
pub mod commands;
pub mod statement;
pub mod table;
pub mod execution;
pub mod repl;
