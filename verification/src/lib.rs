//! Storage rules of the CommandShelf desktop application: the inbox document,
//! the backups taken before a managed file is overwritten, and the detection of
//! the Codex command line.
//!
//! Nothing here touches a disk, a clock or a process. A job that needs the
//! outside world is a value that says which action comes next and takes what
//! came back of it.

pub mod backup_names;
pub mod backup_store;
pub mod codex_cli;
pub mod error;
pub mod inbox_store;
pub mod model;
pub mod outside;
pub mod text;
