//! Removes folders or files beneath a destination directory whose names
//! (folders) or extensions (files) equal one of a rule's patterns.
//!
//! The library decides; its caller touches the file system. `Engine` holds what
//! the command line asks for, `Manager` validates the rules, and each rule's `Walker`
//! tells the caller which directory to list next and, given the listing,
//! which entries to remove. `tree` states what a whole walk reports, `run`
//! that a walker lists each directory of the tree in turn and then stops, and
//! `unique` that it reports and lists no path twice and nothing inside a
//! match.

pub mod config;
pub mod engine;
pub mod error;
pub mod manager;
pub mod matcher;
pub mod run;
pub mod tree;
pub mod unique;
pub mod walker;

pub use config::{Config, Kind};
pub use engine::Engine;
pub use error::{AppError, AppErrorKind};
pub use manager::{Manager, PathStatus};
pub use matcher::{pattern_check, Entry, EntryType};
pub use walker::{Removal, Walker};
