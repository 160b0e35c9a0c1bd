//! Editing core of a plain-text editor: a line-oriented text buffer with
//! cursor and selection tracking, and a command layer that applies edits with
//! snapshot-based undo and redo.

pub mod text;
pub mod buffer;
pub mod commands;
pub mod editor;
