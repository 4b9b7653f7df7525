//! Obsidian daily-notes backend: markdown sections, checkbox todos, note
//! paths and the snapshot values handed to the bar widget.
pub mod text;
pub mod patterns;
pub mod notes;
pub mod status;
pub mod todos;
pub mod config;
pub mod format;
pub mod open;
pub mod snapshot;
pub mod owned;
pub mod undo;
