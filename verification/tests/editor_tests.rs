use editcore::buffer::{EditError, Position};
use editcore::commands::{Command, CommandExecutor};
use editcore::editor::Editor;

fn pos(line: usize, column: usize) -> Position {
    Position { line, column }
}

#[test]
fn new_editor_is_empty() {
    let e = Editor::new();
    assert_eq!(e.get_text().unwrap(), "");
    assert_eq!(e.get_cursor_position(), pos(0, 0));
    assert_eq!(e.get_selection(), None);
}

#[test]
fn execute_insert_char() {
    let mut e = Editor::new();
    e.execute_command(Command::InsertChar('a')).unwrap();
    e.execute_command(Command::InsertChar('b')).unwrap();
    assert_eq!(e.get_text().unwrap(), "ab");
}

#[test]
fn insert_undo_identity() {
    let mut e = Editor::new();
    e.set_text("hello".to_string()).unwrap();
    e.set_cursor_position(pos(0, 3)).unwrap();
    let text_before = e.get_text().unwrap();
    let cursor_before = e.get_cursor_position();
    let selection_before = e.get_selection();
    e.execute_command(Command::InsertChar('x')).unwrap();
    assert_eq!(e.get_text().unwrap(), "helxlo");
    e.undo().unwrap();
    assert_eq!(e.get_text().unwrap(), text_before);
    assert_eq!(e.get_cursor_position(), cursor_before);
    assert_eq!(e.get_selection(), selection_before);
}

#[test]
fn undo_redo_round_trip() {
    let mut e = Editor::new();
    e.execute_command(Command::InsertChar('a')).unwrap();
    e.execute_command(Command::InsertChar('b')).unwrap();
    e.undo().unwrap();
    assert_eq!(e.get_text().unwrap(), "a");
    e.redo().unwrap();
    assert_eq!(e.get_text().unwrap(), "ab");
    e.undo().unwrap();
    e.undo().unwrap();
    assert_eq!(e.get_text().unwrap(), "");
}

#[test]
fn undo_on_empty_history_is_noop() {
    let mut e = Editor::new();
    e.set_text("abc".to_string()).unwrap();
    assert_eq!(e.undo(), Ok(()));
    assert_eq!(e.get_text().unwrap(), "abc");
    assert_eq!(e.redo(), Ok(()));
    assert_eq!(e.get_text().unwrap(), "abc");
}

#[test]
fn redo_invalidated_by_new_edit() {
    let mut e = Editor::new();
    e.execute_command(Command::InsertChar('a')).unwrap();
    e.undo().unwrap();
    e.execute_command(Command::InsertChar('b')).unwrap();
    // The path back to the undone insertion was discarded by committing 'b'.
    e.redo().unwrap();
    assert_eq!(e.get_text().unwrap(), "b");
}

#[test]
fn failed_command_is_not_recorded_and_changes_nothing() {
    let mut e = Editor::new();
    e.execute_command(Command::InsertChar('a')).unwrap();
    assert_eq!(
        e.execute_command(Command::MoveCursor(pos(5, 0))),
        Err(EditError::OutOfBounds)
    );
    assert_eq!(e.get_text().unwrap(), "a");
    // Undo skips the failed command and reverts the insertion.
    e.undo().unwrap();
    assert_eq!(e.get_text().unwrap(), "");
}

#[test]
fn copy_paste_round_trip() {
    let mut e = Editor::new();
    e.set_text("hello world".to_string()).unwrap();
    e.execute_command(Command::Select(pos(0, 0), pos(0, 5))).unwrap();
    e.execute_command(Command::Copy).unwrap();
    e.clear_selection().unwrap();
    e.execute_command(Command::MoveCursor(pos(0, 11))).unwrap();
    e.execute_command(Command::Paste).unwrap();
    assert_eq!(e.get_text().unwrap(), "hello worldhello");
}

#[test]
fn cut_paste_round_trip() {
    let mut e = Editor::new();
    e.set_text("hello world".to_string()).unwrap();
    e.execute_command(Command::Select(pos(0, 0), pos(0, 6))).unwrap();
    e.execute_command(Command::Cut).unwrap();
    assert_eq!(e.get_text().unwrap(), "world");
    e.execute_command(Command::MoveCursor(pos(0, 5))).unwrap();
    e.execute_command(Command::Paste).unwrap();
    assert_eq!(e.get_text().unwrap(), "worldhello ");
}

#[test]
fn multi_line_copy_paste() {
    let mut e = Editor::new();
    e.set_text("one\ntwo".to_string()).unwrap();
    e.execute_command(Command::Select(pos(0, 1), pos(1, 1))).unwrap();
    e.execute_command(Command::Copy).unwrap();
    e.clear_selection().unwrap();
    e.execute_command(Command::MoveCursor(pos(1, 3))).unwrap();
    e.execute_command(Command::Paste).unwrap();
    assert_eq!(e.get_text().unwrap(), "one\ntwone\nt");
}

#[test]
fn multi_line_cut_paste() {
    let mut e = Editor::new();
    e.set_text("one\ntwo\nthree".to_string()).unwrap();
    e.execute_command(Command::Select(pos(0, 2), pos(2, 1))).unwrap();
    e.execute_command(Command::Cut).unwrap();
    assert_eq!(e.get_text().unwrap(), "onhree");
    e.execute_command(Command::MoveCursor(pos(0, 6))).unwrap();
    e.execute_command(Command::Paste).unwrap();
    assert_eq!(e.get_text().unwrap(), "onhreee\ntwo\nt");
}

#[test]
fn copy_without_selection_is_noop() {
    let mut e = Editor::new();
    e.set_text("abc".to_string()).unwrap();
    assert_eq!(e.execute_command(Command::Copy), Ok(()));
    assert_eq!(e.execute_command(Command::Cut), Ok(()));
    assert_eq!(e.get_text().unwrap(), "abc");
}

#[test]
fn paste_with_empty_clipboard_is_noop() {
    let mut e = Editor::new();
    e.set_text("abc".to_string()).unwrap();
    assert_eq!(e.execute_command(Command::Paste), Ok(()));
    assert_eq!(e.get_text().unwrap(), "abc");
}

#[test]
fn delete_selection_command() {
    let mut e = Editor::new();
    e.set_text("abcde\nfghij".to_string()).unwrap();
    e.execute_command(Command::Select(pos(0, 2), pos(1, 3))).unwrap();
    e.execute_command(Command::DeleteSelection).unwrap();
    assert_eq!(e.get_text().unwrap(), "abij");
    assert_eq!(e.get_cursor_position(), pos(0, 2));
    // Snapshot-based undo restores the deleted span.
    e.undo().unwrap();
    assert_eq!(e.get_text().unwrap(), "abcde\nfghij");
}

#[test]
fn cut_is_undoable() {
    let mut e = Editor::new();
    e.set_text("hello".to_string()).unwrap();
    e.execute_command(Command::Select(pos(0, 1), pos(0, 4))).unwrap();
    e.execute_command(Command::Cut).unwrap();
    assert_eq!(e.get_text().unwrap(), "ho");
    e.undo().unwrap();
    assert_eq!(e.get_text().unwrap(), "hello");
}

#[test]
fn execute_insert_newline_and_delete_char() {
    let mut e = Editor::new();
    e.set_text("abcd".to_string()).unwrap();
    e.execute_command(Command::MoveCursor(pos(0, 2))).unwrap();
    e.execute_command(Command::InsertNewline).unwrap();
    assert_eq!(e.get_text().unwrap(), "ab\ncd");
    assert_eq!(e.get_cursor_position(), pos(1, 0));
    assert_eq!(
        e.execute_command(Command::DeleteChar),
        Err(EditError::OutOfBounds)
    );
    e.execute_command(Command::MoveCursor(pos(0, 2))).unwrap();
    e.execute_command(Command::DeleteChar).unwrap();
    assert_eq!(e.get_text().unwrap(), "a\ncd");
}

#[test]
fn undo_redo_as_commands() {
    let mut e = Editor::new();
    e.execute_command(Command::InsertChar('a')).unwrap();
    e.execute_command(Command::Undo).unwrap();
    assert_eq!(e.get_text().unwrap(), "");
    e.execute_command(Command::Redo).unwrap();
    assert_eq!(e.get_text().unwrap(), "a");
}

#[test]
fn trait_execute_matches_inherent() {
    let mut e = Editor::new();
    CommandExecutor::execute(&mut e, Command::InsertChar('z')).unwrap();
    assert_eq!(e.get_text().unwrap(), "z");
    CommandExecutor::undo(&mut e).unwrap();
    assert_eq!(e.get_text().unwrap(), "");
    CommandExecutor::redo(&mut e).unwrap();
    assert_eq!(e.get_text().unwrap(), "z");
}

#[test]
fn editor_selection_accessors() {
    let mut e = Editor::new();
    e.set_text("ab\ncd".to_string()).unwrap();
    e.set_selection(pos(1, 1), pos(0, 1)).unwrap();
    assert_eq!(e.get_selection(), Some((pos(0, 1), pos(1, 1))));
    e.clear_selection().unwrap();
    assert_eq!(e.get_selection(), None);
    assert_eq!(
        e.set_selection(pos(0, 0), pos(3, 0)),
        Err(EditError::OutOfBounds)
    );
}

#[test]
fn editor_cursor_bounds_rejected() {
    let mut e = Editor::new();
    e.set_text("ab".to_string()).unwrap();
    assert_eq!(e.set_cursor_position(pos(1, 0)), Err(EditError::OutOfBounds));
    assert_eq!(e.get_cursor_position(), pos(0, 0));
}

#[test]
fn buffer_access_through_editor() {
    let mut e = Editor::new();
    e.set_text("abc".to_string()).unwrap();
    assert_eq!(e.get_buffer().get_text().unwrap(), "abc");
    e.get_buffer_mut().insert_char('!').unwrap();
    assert_eq!(e.get_text().unwrap(), "!abc");
}

#[test]
fn set_text_rejects_bad_input_through_editor() {
    let mut e = Editor::new();
    e.set_text("ok".to_string()).unwrap();
    assert_eq!(e.set_text(String::new()), Err(EditError::InvalidText));
    assert_eq!(e.set_text("a\u{2}b".to_string()), Err(EditError::InvalidText));
    assert_eq!(e.get_text().unwrap(), "ok");
}
