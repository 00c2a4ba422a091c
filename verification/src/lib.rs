//! A module-aware file watcher core.
//!
//! The library tracks a set of entry source files, extracts their import
//! specifiers, resolves each specifier to a concrete file of the project,
//! keeps a store of transitive dependency sets, and classifies every tracked
//! file on each poll round as unchanged, created, modified or deleted.
//!
//! All filesystem content enters through a plain snapshot value holding the
//! files a round works on; reading the disk, the polling thread and the
//! command line live outside the library.

pub mod cachefile;
pub mod changes;
pub mod entry;
pub mod fsview;
pub mod json;
pub mod parser;
pub mod path_clean;
pub mod store;
pub mod strutil;
pub mod watcher;
