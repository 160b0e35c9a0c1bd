//! The editor: a text buffer together with a clipboard slot and a
//! snapshot-based history. Every command either fully applies — recording
//! the pre-command state for undo — or is rolled back to the snapshot taken
//! before it ran.

use vstd::prelude::*;
use crate::buffer::{
    delete_char_m, delete_char_ok, delete_selection_m, empty_buffer, insert_char_m,
    insert_char_ok, insert_text_run, lemma_delete_char_wf, lemma_delete_selection_wf,
    doc_offset, lemma_insert_char_wf, lemma_insert_text_run_wf, lemma_range_text, lines_view,
    pos_le, range_text,
    set_text_ok, Buffer, BufferModel, EditError, Position,
};
use crate::commands::{Command, CommandExecutor};
use crate::text::{document_of, text_allowed};

verus! {

/// The mathematical state of an editor: the live buffer, the two snapshot
/// stacks (most recent last), and the clipboard slot.
#[verifier::ext_equal]
pub ghost struct EditorModel {
    pub buffer: BufferModel,
    pub undo_stack: Seq<BufferModel>,
    pub redo_stack: Seq<BufferModel>,
    pub clipboard: Option<Seq<char>>,
}

impl EditorModel {
    /// The editor invariant: the live buffer and every recorded snapshot
    /// satisfy the buffer invariant.
    pub open spec fn wf(self) -> bool {
        &&& self.buffer.wf()
        &&& forall|i: int| 0 <= i < self.undo_stack.len() ==> (#[trigger] self.undo_stack[i]).wf()
        &&& forall|i: int| 0 <= i < self.redo_stack.len() ==> (#[trigger] self.redo_stack[i]).wf()
    }
}

/// The state of a freshly created editor: an empty buffer, empty history,
/// empty clipboard.
pub open spec fn empty_editor() -> EditorModel {
    EditorModel {
        buffer: empty_buffer(),
        undo_stack: Seq::empty(),
        redo_stack: Seq::empty(),
        clipboard: None,
    }
}

/// What one non-history command does to the buffer and the clipboard, and
/// whether it succeeds. A failing command changes nothing (the editor
/// restores its pre-command snapshot). Copy and Cut without a selection, and
/// Paste with an empty clipboard, are deliberate no-ops. `Undo` and `Redo`
/// are not applied here; `execute_m` handles them.
pub open spec fn apply_m(b: BufferModel, clip: Option<Seq<char>>, command: Command) -> (
    BufferModel,
    Option<Seq<char>>,
    Result<(), EditError>,
) {
    match command {
        Command::InsertChar(c) => if insert_char_ok(b, c) {
            (insert_char_m(b, c), clip, Ok(()))
        } else {
            (b, clip, Err(EditError::BufferOverflow))
        },
        Command::DeleteChar => if delete_char_ok(b) {
            (delete_char_m(b), clip, Ok(()))
        } else {
            (b, clip, Err(EditError::OutOfBounds))
        },
        Command::InsertNewline => if b.lines.len() < usize::MAX {
            (insert_char_m(b, '\n'), clip, Ok(()))
        } else {
            (b, clip, Err(EditError::BufferOverflow))
        },
        Command::MoveCursor(p) => if b.valid_pos(p) {
            (BufferModel { cursor: p, ..b }, clip, Ok(()))
        } else {
            (b, clip, Err(EditError::OutOfBounds))
        },
        Command::Select(s, e) => if b.valid_pos(s) && b.valid_pos(e) {
            (
                BufferModel {
                    selection: if pos_le(s, e) {
                        Some((s, e))
                    } else {
                        Some((e, s))
                    },
                    ..b
                },
                clip,
                Ok(()),
            )
        } else {
            (b, clip, Err(EditError::OutOfBounds))
        },
        Command::DeleteSelection => if b.selection is Some {
            (delete_selection_m(b), clip, Ok(()))
        } else {
            (b, clip, Err(EditError::NoSelection))
        },
        Command::Copy => match b.selection {
            Some((s, e)) => (b, Some(range_text(b, s, e)), Ok(())),
            None => (b, clip, Ok(())),
        },
        Command::Cut => match b.selection {
            Some((s, e)) => (delete_selection_m(b), Some(range_text(b, s, e)), Ok(())),
            None => (b, clip, Ok(())),
        },
        Command::Paste => match clip {
            Some(t) => if t.len() == 0 {
                (b, clip, Ok(()))
            } else if !text_allowed(t) {
                (b, clip, Err(EditError::InvalidText))
            } else {
                let run = insert_text_run(b, t);
                if run.1 is Ok {
                    (run.0, clip, Ok(()))
                } else {
                    (b, clip, run.1)
                }
            },
            None => (b, clip, Ok(())),
        },
        Command::Undo => (b, clip, Ok(())),
        Command::Redo => (b, clip, Ok(())),
    }
}

/// Reverting: with a non-empty undo stack, the most recent snapshot becomes
/// the live buffer, and the pre-undo buffer moves onto the redo stack;
/// otherwise a no-op.
pub open spec fn undo_m(m: EditorModel) -> EditorModel {
    if m.undo_stack.len() == 0 {
        m
    } else {
        EditorModel {
            buffer: m.undo_stack.last(),
            undo_stack: m.undo_stack.drop_last(),
            redo_stack: m.redo_stack.push(m.buffer),
            clipboard: m.clipboard,
        }
    }
}

/// Re-applying: with a non-empty redo stack, the most recently undone state
/// becomes the live buffer, and the pre-redo buffer moves back onto the undo
/// stack; otherwise a no-op.
pub open spec fn redo_m(m: EditorModel) -> EditorModel {
    if m.redo_stack.len() == 0 {
        m
    } else {
        EditorModel {
            buffer: m.redo_stack.last(),
            undo_stack: m.undo_stack.push(m.buffer),
            redo_stack: m.redo_stack.drop_last(),
            clipboard: m.clipboard,
        }
    }
}

/// Applying one command: `Undo` and `Redo` move along the history; any other
/// command that succeeds pushes the pre-command buffer onto the undo stack
/// and discards the whole redo stack; any failure leaves the editor exactly
/// as it was.
pub open spec fn execute_m(m: EditorModel, command: Command) -> (EditorModel, Result<
    (),
    EditError,
>) {
    match command {
        Command::Undo => (undo_m(m), Ok(())),
        Command::Redo => (redo_m(m), Ok(())),
        _ => {
            let (b, clip, r) = apply_m(m.buffer, m.clipboard, command);
            if r is Ok {
                (
                    EditorModel {
                        buffer: b,
                        undo_stack: m.undo_stack.push(m.buffer),
                        redo_stack: Seq::empty(),
                        clipboard: clip,
                    },
                    Ok(()),
                )
            } else {
                (m, r)
            }
        },
    }
}

/// Every command application preserves the editor invariant.
pub proof fn lemma_execute_m_wf(m: EditorModel, command: Command)
    requires
        m.wf(),
    ensures
        execute_m(m, command).0.wf(),
{
    match command {
        Command::InsertChar(c) => {
            if insert_char_ok(m.buffer, c) {
                lemma_insert_char_wf(m.buffer, c);
            }
        },
        Command::DeleteChar => {
            if delete_char_ok(m.buffer) {
                lemma_delete_char_wf(m.buffer);
            }
        },
        Command::InsertNewline => {
            if m.buffer.lines.len() < usize::MAX {
                lemma_insert_char_wf(m.buffer, '\n');
            }
        },
        Command::DeleteSelection => {
            if m.buffer.selection is Some {
                lemma_delete_selection_wf(m.buffer);
            }
        },
        Command::Cut => {
            if m.buffer.selection is Some {
                lemma_delete_selection_wf(m.buffer);
            }
        },
        Command::Paste => {
            match m.clipboard {
                Some(t) => {
                    lemma_insert_text_run_wf(m.buffer, t);
                },
                None => {},
            }
        },
        _ => {},
    }
}

/// Law: executing a character insertion and then undoing restores a buffer
/// state — text, cursor and selection — identical to the starting one.
/// Insertion pushes the pre-command buffer onto the undo stack, and undo
/// makes that snapshot the live buffer again.
pub proof fn lemma_insert_undo_identity(m: EditorModel, c: char)
    requires
        m.wf(),
        insert_char_ok(m.buffer, c),
    ensures
        execute_m(m, Command::InsertChar(c)).1 == Ok::<(), EditError>(()),
        undo_m(execute_m(m, Command::InsertChar(c)).0).buffer == m.buffer,
{
    let m1 = execute_m(m, Command::InsertChar(c)).0;
    assert(m1.undo_stack == m.undo_stack.push(m.buffer));
    assert(m1.undo_stack.last() == m.buffer);
}

/// Law: committing a new edit discards the redo path. After executing a
/// command, undoing it, and successfully executing another (non-history)
/// command, the redo stack is empty, so a redo is a no-op.
pub proof fn lemma_redo_invalidated(m: EditorModel, a: Command, b: Command)
    requires
        m.wf(),
        !(a is Undo),
        !(a is Redo),
        !(b is Undo),
        !(b is Redo),
        execute_m(undo_m(execute_m(m, a).0), b).1 is Ok,
    ensures
        execute_m(undo_m(execute_m(m, a).0), b).0.redo_stack.len() == 0,
        redo_m(execute_m(undo_m(execute_m(m, a).0), b).0) == execute_m(
            undo_m(execute_m(m, a).0),
            b,
        ).0,
{
}

/// Law: copying stores exactly the selected span. With a selection active,
/// the `Copy` command succeeds, leaves the buffer untouched, and puts the
/// slice of the joined text between the selection's endpoint offsets into
/// the clipboard.
pub proof fn lemma_copy_stores_span(m: EditorModel, s: Position, e: Position)
    requires
        m.wf(),
        m.buffer.selection == Some((s, e)),
    ensures
        execute_m(m, Command::Copy).1 == Ok::<(), EditError>(()),
        execute_m(m, Command::Copy).0.buffer == m.buffer,
        execute_m(m, Command::Copy).0.clipboard == Some(
            m.buffer.text().subrange(
                doc_offset(m.buffer.lines, s),
                doc_offset(m.buffer.lines, e),
            ),
        ),
{
    lemma_range_text(m.buffer, s, e);
}

/// A snapshot of the buffer state, owned by the editor's history; never
/// aliased with the live buffer.
struct BufferState {
    lines: Vec<Vec<char>>,
    cursor: Position,
    selection: Option<(Position, Position)>,
}

impl View for BufferState {
    type V = BufferModel;

    closed spec fn view(&self) -> BufferModel {
        BufferModel {
            lines: lines_view(self.lines@),
            cursor: self.cursor,
            selection: self.selection,
        }
    }
}

/// The editor: a buffer, the undo and redo stacks of snapshots, and the
/// clipboard slot it owns.
pub struct Editor {
    buffer: Buffer,
    undo_stack: Vec<BufferState>,
    redo_stack: Vec<BufferState>,
    clipboard: Option<String>,
}

/// The clipboard slot as a mathematical value.
spec fn clip_view(c: Option<String>) -> Option<Seq<char>> {
    match c {
        Some(s) => Some(s@),
        None => None,
    }
}

/// A snapshot stack as a sequence of buffer states.
spec fn stack_view(v: Seq<BufferState>) -> Seq<BufferModel> {
    Seq::new(v.len(), |i: int| v[i]@)
}

proof fn lemma_stack_view(v: Seq<BufferState>)
    ensures
        stack_view(v).len() == v.len(),
        forall|i: int| 0 <= i < v.len() ==> stack_view(v)[i] == #[trigger] v[i]@,
{
}

impl View for Editor {
    type V = EditorModel;

    closed spec fn view(&self) -> EditorModel {
        EditorModel {
            buffer: self.buffer@,
            undo_stack: stack_view(self.undo_stack@),
            redo_stack: stack_view(self.redo_stack@),
            clipboard: clip_view(self.clipboard),
        }
    }
}

impl Editor {
    /// A new editor over an empty buffer, with empty history and an empty
    /// clipboard.
    pub fn new() -> (e: Editor)
        ensures
            e@ == empty_editor(),
            e@.wf(),
    {
        let e = Editor {
            buffer: Buffer::new(),
            undo_stack: Vec::new(),
            redo_stack: Vec::new(),
            clipboard: None,
        };
        proof {
            assert(e@.undo_stack =~= empty_editor().undo_stack);
            assert(e@.redo_stack =~= empty_editor().redo_stack);
            assert(e@ =~= empty_editor());
        }
        e
    }

    /// Applies one command through the command interface, as `execute_m`
    /// describes: success records the pre-command state and clears the redo
    /// stack; failure leaves the editor exactly as it was.
    pub fn execute_command(&mut self, command: Command) -> (r: Result<(), EditError>)
        requires
            old(self)@.wf(),
        ensures
            final(self)@.wf(),
            final(self)@ == execute_m(old(self)@, command).0,
            r == execute_m(old(self)@, command).1,
    {
        CommandExecutor::execute(self, command)
    }

    /// Reverts to the most recent recorded state, as `undo_m` describes; a
    /// no-op with an empty history. Never fails.
    pub fn undo(&mut self) -> (r: Result<(), EditError>)
        requires
            old(self)@.wf(),
        ensures
            final(self)@.wf(),
            final(self)@ == undo_m(old(self)@),
            r == Ok::<(), EditError>(()),
    {
        CommandExecutor::undo(self)
    }

    /// Returns to the most recently undone state, as `redo_m` describes; a
    /// no-op with an empty redo stack. Never fails.
    pub fn redo(&mut self) -> (r: Result<(), EditError>)
        requires
            old(self)@.wf(),
        ensures
            final(self)@.wf(),
            final(self)@ == redo_m(old(self)@),
            r == Ok::<(), EditError>(()),
    {
        CommandExecutor::redo(self)
    }

    /// A shared view of the buffer.
    pub fn get_buffer(&self) -> (r: &Buffer)
        ensures
            r@ == self@.buffer,
    {
        &self.buffer
    }

    /// Exclusive access to the buffer; once the borrow ends, the editor
    /// holds whatever buffer state the caller left behind.
    pub fn get_buffer_mut(&mut self) -> (r: &mut Buffer)
        ensures
            r@ == old(self)@.buffer,
            final(self)@ == (EditorModel { buffer: final(r)@, ..old(self)@ }),
    {
        &mut self.buffer
    }

    /// The whole document text, from the buffer. Never fails.
    pub fn get_text(&self) -> (r: Result<String, EditError>)
        requires
            self@.wf(),
        ensures
            r is Ok,
            match r {
                Ok(s) => s@ == self@.buffer.text(),
                Err(_) => false,
            },
    {
        self.buffer.get_text()
    }

    /// Replaces the whole document, exactly as the buffer's `set_text`;
    /// history and clipboard are untouched.
    pub fn set_text(&mut self, text: String) -> (r: Result<(), EditError>)
        requires
            old(self)@.wf(),
        ensures
            final(self)@.wf(),
            set_text_ok(text@) ==> r == Ok::<(), EditError>(()) && final(self)@ == (EditorModel {
                buffer: BufferModel {
                    lines: document_of(text@),
                    cursor: Position { line: 0, column: 0 },
                    selection: None,
                },
                ..old(self)@
            }),
            !set_text_ok(text@) ==> r == Err::<(), EditError>(EditError::InvalidText)
                && final(self)@ == old(self)@,
    {
        let r = self.buffer.set_text(text);
        proof {
            assert(self@ =~= (EditorModel { buffer: self.buffer@, ..old(self)@ }));
        }
        r
    }

    /// The buffer's cursor position.
    pub fn get_cursor_position(&self) -> (p: Position)
        ensures
            p == self@.buffer.cursor,
    {
        self.buffer.get_cursor_position()
    }

    /// Moves the buffer's cursor, exactly as the buffer's
    /// `set_cursor_position`: it fails with `OutOfBounds`, changing nothing,
    /// exactly when the position is invalid.
    pub fn set_cursor_position(&mut self, position: Position) -> (r: Result<(), EditError>)
        requires
            old(self)@.wf(),
        ensures
            final(self)@.wf(),
            old(self)@.buffer.valid_pos(position) ==> r == Ok::<(), EditError>(()) && final(self)@
                == (EditorModel {
                buffer: BufferModel { cursor: position, ..old(self)@.buffer },
                ..old(self)@
            }),
            !old(self)@.buffer.valid_pos(position) ==> r == Err::<(), EditError>(
                EditError::OutOfBounds,
            ) && final(self)@ == old(self)@,
    {
        let r = self.buffer.set_cursor_position(position);
        proof {
            assert(self@ =~= (EditorModel { buffer: self.buffer@, ..old(self)@ }));
        }
        r
    }

    /// The buffer's selection, if any.
    pub fn get_selection(&self) -> (r: Option<(Position, Position)>)
        ensures
            r == self@.buffer.selection,
    {
        self.buffer.get_selection()
    }

    /// Sets the buffer's selection, exactly as the buffer's
    /// `set_selection`: the stored pair is normalized to document order, and
    /// it fails with `OutOfBounds`, changing nothing, exactly when either
    /// position is invalid.
    pub fn set_selection(&mut self, start: Position, end: Position) -> (r: Result<(), EditError>)
        requires
            old(self)@.wf(),
        ensures
            final(self)@.wf(),
            old(self)@.buffer.valid_pos(start) && old(self)@.buffer.valid_pos(end) ==> r == Ok::<
                (),
                EditError,
            >(()) && final(self)@ == (EditorModel {
                buffer: BufferModel {
                    selection: if pos_le(start, end) {
                        Some((start, end))
                    } else {
                        Some((end, start))
                    },
                    ..old(self)@.buffer
                },
                ..old(self)@
            }),
            !(old(self)@.buffer.valid_pos(start) && old(self)@.buffer.valid_pos(end)) ==> r
                == Err::<(), EditError>(EditError::OutOfBounds) && final(self)@ == old(self)@,
    {
        let r = self.buffer.set_selection(start, end);
        proof {
            assert(self@ =~= (EditorModel { buffer: self.buffer@, ..old(self)@ }));
        }
        r
    }

    /// Drops the buffer's selection. Never fails.
    pub fn clear_selection(&mut self) -> (r: Result<(), EditError>)
        requires
            old(self)@.wf(),
        ensures
            final(self)@.wf(),
            r == Ok::<(), EditError>(()),
            final(self)@ == (EditorModel {
                buffer: BufferModel { selection: None, ..old(self)@.buffer },
                ..old(self)@
            }),
    {
        let r = self.buffer.clear_selection();
        proof {
            assert(self@ =~= (EditorModel { buffer: self.buffer@, ..old(self)@ }));
        }
        r
    }

    /// Copies the current buffer state into a snapshot.
    fn save_buffer_state(&self) -> (s: BufferState)
        requires
            self@.wf(),
        ensures
            s@ == self@.buffer,
    {
        let s = BufferState {
            lines: self.buffer.copy_lines(),
            cursor: self.buffer.get_cursor_position(),
            selection: self.buffer.get_selection(),
        };
        proof {
            assert(s@ =~= self@.buffer);
        }
        s
    }

    /// Makes a snapshot the live buffer state again; only the buffer
    /// changes.
    fn restore_buffer_state(&mut self, state: BufferState) -> (r: Result<(), EditError>)
        requires
            old(self)@.wf(),
            state@.wf(),
        ensures
            r == Ok::<(), EditError>(()),
            final(self)@ == (EditorModel { buffer: state@, ..old(self)@ }),
    {
        let BufferState { lines, cursor, selection } = state;
        self.buffer.restore_parts(lines, cursor, selection);
        proof {
            assert(self@ =~= (EditorModel { buffer: state@, ..old(self)@ }));
        }
        Ok(())
    }

    /// Stores text in the clipboard slot; the previous content is lost.
    fn set_clipboard(&mut self, text: String)
        ensures
            final(self)@ == (EditorModel { clipboard: Some(text@), ..old(self)@ }),
    {
        self.clipboard = Some(text);
        proof {
            assert(self@ =~= (EditorModel { clipboard: Some(text@), ..old(self)@ }));
        }
    }

    /// Reads the clipboard slot, if it holds text.
    fn get_clipboard(&self) -> (r: Option<String>)
        ensures
            match (r, self@.clipboard) {
                (Some(s), Some(t)) => s@ == t,
                (None, None) => true,
                _ => false,
            },
    {
        match &self.clipboard {
            Some(s) => Some(s.clone()),
            None => None,
        }
    }
}

impl CommandExecutor for Editor {
    open spec fn inv(&self) -> bool {
        self@.wf()
    }

    open spec fn model(&self) -> EditorModel {
        self@
    }

    fn execute(&mut self, command: Command) -> (r: Result<(), EditError>) {
        let ghost m0 = self@;
        match command {
            Command::Undo => {
                return CommandExecutor::undo(self);
            },
            Command::Redo => {
                return CommandExecutor::redo(self);
            },
            _ => {},
        }
        let snapshot = self.save_buffer_state();
        let r = match command {
            Command::InsertChar(c) => self.buffer.insert_char(c),
            Command::DeleteChar => self.buffer.delete_char(),
            Command::InsertNewline => self.buffer.insert_newline(),
            Command::MoveCursor(p) => self.buffer.set_cursor_position(p),
            Command::Select(s, e) => self.buffer.set_selection(s, e),
            Command::DeleteSelection => self.buffer.delete_selection(),
            Command::Copy => {
                match self.buffer.get_selection() {
                    Some((s, e)) => {
                        match self.buffer.get_text_in_range(s, e) {
                            Ok(t) => {
                                self.set_clipboard(t);
                                Ok(())
                            },
                            Err(err) => Err(err),
                        }
                    },
                    None => Ok(()),
                }
            },
            Command::Cut => {
                match self.buffer.get_selection() {
                    Some((s, e)) => {
                        match self.buffer.get_text_in_range(s, e) {
                            Ok(t) => {
                                self.set_clipboard(t);
                                self.buffer.delete_selection()
                            },
                            Err(err) => Err(err),
                        }
                    },
                    None => Ok(()),
                }
            },
            Command::Paste => {
                match self.get_clipboard() {
                    Some(t) => self.buffer.insert_text(t),
                    None => Ok(()),
                }
            },
            Command::Undo | Command::Redo => Ok(()),
        };
        proof {
            lemma_execute_m_wf(m0, command);
        }
        match r {
            Ok(_) => {
                let ghost pre = self.undo_stack@;
                self.undo_stack.push(snapshot);
                self.redo_stack.clear();
                proof {
                    lemma_stack_view(pre);
                    lemma_stack_view(self.undo_stack@);
                    assert(self@.undo_stack =~= m0.undo_stack.push(m0.buffer));
                    assert(self@.redo_stack =~= Seq::<BufferModel>::empty());
                    assert(self@ =~= execute_m(m0, command).0);
                }
                Ok(())
            },
            Err(e) => {
                let _ = self.restore_buffer_state(snapshot);
                proof {
                    assert(self@ =~= execute_m(m0, command).0);
                }
                Err(e)
            },
        }
    }

    fn undo(&mut self) -> (r: Result<(), EditError>) {
        let ghost m0 = self@;
        proof {
            lemma_stack_view(self.undo_stack@);
        }
        match self.undo_stack.pop() {
            None => {
                proof {
                    assert(self@ =~= undo_m(m0));
                }
                Ok(())
            },
            Some(state) => {
                proof {
                    lemma_stack_view(self.undo_stack@);
                    assert(state@ == m0.undo_stack.last());
                    assert(m0.undo_stack.last().wf());
                    assert(self@.undo_stack =~= m0.undo_stack.drop_last());
                    assert(self@.wf());
                }
                let cur = self.save_buffer_state();
                let ghost pre = self.redo_stack@;
                self.redo_stack.push(cur);
                proof {
                    lemma_stack_view(pre);
                    lemma_stack_view(self.redo_stack@);
                    assert(self@.redo_stack =~= m0.redo_stack.push(m0.buffer));
                    assert(self@.wf());
                }
                let _ = self.restore_buffer_state(state);
                proof {
                    assert(self@ =~= undo_m(m0));
                }
                Ok(())
            },
        }
    }

    fn redo(&mut self) -> (r: Result<(), EditError>) {
        let ghost m0 = self@;
        proof {
            lemma_stack_view(self.redo_stack@);
        }
        match self.redo_stack.pop() {
            None => {
                proof {
                    assert(self@ =~= redo_m(m0));
                }
                Ok(())
            },
            Some(state) => {
                proof {
                    lemma_stack_view(self.redo_stack@);
                    assert(state@ == m0.redo_stack.last());
                    assert(m0.redo_stack.last().wf());
                    assert(self@.redo_stack =~= m0.redo_stack.drop_last());
                    assert(self@.wf());
                }
                let cur = self.save_buffer_state();
                let ghost pre = self.undo_stack@;
                self.undo_stack.push(cur);
                proof {
                    lemma_stack_view(pre);
                    lemma_stack_view(self.undo_stack@);
                    assert(self@.undo_stack =~= m0.undo_stack.push(m0.buffer));
                    assert(self@.wf());
                }
                let _ = self.restore_buffer_state(state);
                proof {
                    assert(self@ =~= redo_m(m0));
                }
                Ok(())
            },
        }
    }
}

} // verus!
