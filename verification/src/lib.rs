//! Inlines the local modules that a Python script imports into one
//! self-contained text, and tidies the result for release.

pub mod fs;
pub mod path;
pub mod text;
pub mod vfs;
pub mod dead_blocks;
pub mod imports;
pub mod render;
pub mod resolve;
pub mod processed;
pub mod error;
pub mod inline;
pub mod blank_lines;
pub mod comments;
pub mod docstrings;
pub mod consolidate;
pub mod run;
pub mod mock;
pub mod python;
pub mod editable;
