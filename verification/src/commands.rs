//! Editing commands: immutable descriptions of one editing intent each, and
//! the interface through which an editor applies them with reversible
//! history.

use vstd::prelude::*;
use crate::buffer::{EditError, Position};
use crate::editor::{execute_m, redo_m, undo_m, EditorModel};

verus! {

/// One editing intent. A command carries only the data needed to apply the
/// edit; reversing is done from snapshots, not from the command.
#[derive(Clone, Copy, Debug, PartialEq, Eq, Structural)]
pub enum Command {
    /// Insert one character at the cursor.
    InsertChar(char),
    /// Remove the character before the cursor.
    DeleteChar,
    /// Insert a line break at the cursor.
    InsertNewline,
    /// Move the cursor to the given position.
    MoveCursor(Position),
    /// Select the range between the two positions.
    Select(Position, Position),
    /// Delete the selected range.
    DeleteSelection,
    /// Copy the selected text to the clipboard.
    Copy,
    /// Copy the selected text to the clipboard, then delete it.
    Cut,
    /// Insert the clipboard text at the cursor.
    Paste,
    /// Revert the most recent committed command.
    Undo,
    /// Re-apply the most recently undone command.
    Redo,
}

/// An executor of editing commands with reversible history. Applying a
/// command either fully succeeds — recording the pre-command state and
/// discarding any redo path — or fails and leaves the state exactly as it
/// was; undo and redo move between recorded states and never fail.
pub trait CommandExecutor {
    /// The executor's well-formedness: its buffer and every recorded
    /// snapshot satisfy the buffer invariant.
    spec fn inv(&self) -> bool;

    /// The executor's state as a mathematical value.
    spec fn model(&self) -> EditorModel;

    /// Applies one command, as `execute_m` describes.
    fn execute(&mut self, command: Command) -> (r: Result<(), EditError>)
        requires
            old(self).inv(),
        ensures
            final(self).inv(),
            final(self).model() == execute_m(old(self).model(), command).0,
            r == execute_m(old(self).model(), command).1,
    ;

    /// Reverts to the most recent recorded state, as `undo_m` describes; a
    /// no-op with an empty history.
    fn undo(&mut self) -> (r: Result<(), EditError>)
        requires
            old(self).inv(),
        ensures
            final(self).inv(),
            final(self).model() == undo_m(old(self).model()),
            r == Ok::<(), EditError>(()),
    ;

    /// Returns to the most recently undone state, as `redo_m` describes; a
    /// no-op with an empty redo stack.
    fn redo(&mut self) -> (r: Result<(), EditError>)
        requires
            old(self).inv(),
        ensures
            final(self).inv(),
            final(self).model() == redo_m(old(self).model()),
            r == Ok::<(), EditError>(()),
    ;
}

} // verus!
