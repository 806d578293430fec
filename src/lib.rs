//! Counting of recurring warnings in log files against thresholds declared in
//! limit files found throughout a directory tree.
//!
//! Strings (kinds, categories, descriptions) are interned in a [`arena::SearchableArena`];
//! each parallel scan owns an arena of its own, and results are merged into one
//! global arena before thresholds are checked.
pub mod arena;
pub mod limits;
pub mod order;
pub mod settings;
pub mod search_for_files;
pub mod search_in_files;
pub mod warnings;
pub mod grouped;
pub mod aggregate;
pub mod ratchet;
pub mod utils;
