use editcore::buffer::{Buffer, EditError, Position};

fn pos(line: usize, column: usize) -> Position {
    Position { line, column }
}

fn lines_of(b: &Buffer) -> Vec<String> {
    b.get_all_lines().iter().map(|l| l.iter().collect::<String>()).collect()
}

#[test]
fn new_buffer_is_one_empty_line() {
    let b = Buffer::new();
    assert_eq!(lines_of(&b), vec![String::new()]);
    assert_eq!(b.get_cursor_position(), pos(0, 0));
    assert_eq!(b.get_selection(), None);
    assert_eq!(b.get_text().unwrap(), "");
}

#[test]
fn insert_chars_advance_cursor() {
    let mut b = Buffer::new();
    b.insert_char('h').unwrap();
    b.insert_char('i').unwrap();
    assert_eq!(b.get_text().unwrap(), "hi");
    assert_eq!(b.get_cursor_position(), pos(0, 2));
}

#[test]
fn insert_newline_splits_line() {
    let mut b = Buffer::new();
    b.set_text("abcd".to_string()).unwrap();
    b.set_cursor_position(pos(0, 2)).unwrap();
    b.insert_newline().unwrap();
    assert_eq!(lines_of(&b), vec!["ab".to_string(), "cd".to_string()]);
    assert_eq!(b.get_cursor_position(), pos(1, 0));
    assert_eq!(b.get_text().unwrap(), "ab\ncd");
}

#[test]
fn tab_inserts_four_spaces_and_advances_by_four() {
    let mut b = Buffer::new();
    b.insert_char('\t').unwrap();
    assert_eq!(b.get_text().unwrap(), "    ");
    assert_eq!(b.get_cursor_position(), pos(0, 4));
    // Regardless of existing indentation.
    let mut c = Buffer::new();
    c.set_text("  ab".to_string()).unwrap();
    c.set_cursor_position(pos(0, 2)).unwrap();
    c.insert_char('\t').unwrap();
    assert_eq!(c.get_text().unwrap(), "      ab");
    assert_eq!(c.get_cursor_position(), pos(0, 6));
}

#[test]
fn set_text_round_trip() {
    let mut b = Buffer::new();
    b.set_text("hello\nworld".to_string()).unwrap();
    assert_eq!(b.get_text().unwrap(), "hello\nworld");
    assert_eq!(b.get_cursor_position(), pos(0, 0));
    assert_eq!(b.get_selection(), None);
}

#[test]
fn set_text_round_trip_trailing_newline() {
    let mut b = Buffer::new();
    b.set_text("ab\n".to_string()).unwrap();
    assert_eq!(lines_of(&b), vec!["ab".to_string(), String::new()]);
    assert_eq!(b.get_text().unwrap(), "ab\n");
}

#[test]
fn set_text_round_trip_interior_empty_lines() {
    let mut b = Buffer::new();
    b.set_text("a\n\nb".to_string()).unwrap();
    assert_eq!(b.get_text().unwrap(), "a\n\nb");
}

#[test]
fn set_text_expands_tabs() {
    let mut b = Buffer::new();
    b.set_text("a\tb\n\tc".to_string()).unwrap();
    assert_eq!(b.get_text().unwrap(), "a    b\n    c");
}

#[test]
fn set_text_rejects_empty_input() {
    let mut b = Buffer::new();
    b.insert_char('x').unwrap();
    assert_eq!(b.set_text(String::new()), Err(EditError::InvalidText));
    assert_eq!(b.get_text().unwrap(), "x");
}

#[test]
fn set_text_rejects_control_characters() {
    let mut b = Buffer::new();
    assert_eq!(b.set_text("a\u{1}b".to_string()), Err(EditError::InvalidText));
    assert_eq!(b.get_text().unwrap(), "");
    // Carriage return is allowed.
    b.set_text("a\rb".to_string()).unwrap();
    assert_eq!(b.get_text().unwrap(), "a\rb");
}

#[test]
fn carriage_return_newline_round_trip() {
    let mut b = Buffer::new();
    b.set_text("a\r\nb".to_string()).unwrap();
    assert_eq!(lines_of(&b), vec!["a\r".to_string(), "b".to_string()]);
    assert_eq!(b.get_text().unwrap(), "a\r\nb");
}

#[test]
fn delete_char_removes_before_cursor() {
    let mut b = Buffer::new();
    b.set_text("abc".to_string()).unwrap();
    b.set_cursor_position(pos(0, 2)).unwrap();
    b.delete_char().unwrap();
    assert_eq!(b.get_text().unwrap(), "ac");
    assert_eq!(b.get_cursor_position(), pos(0, 1));
}

#[test]
fn delete_char_at_line_start_fails() {
    let mut b = Buffer::new();
    b.set_text("abc".to_string()).unwrap();
    assert_eq!(b.delete_char(), Err(EditError::OutOfBounds));
    assert_eq!(b.get_text().unwrap(), "abc");
    assert_eq!(b.get_cursor_position(), pos(0, 0));
}

#[test]
fn delete_char_at_end_of_line_works() {
    let mut b = Buffer::new();
    b.set_text("abc".to_string()).unwrap();
    b.set_cursor_position(pos(0, 3)).unwrap();
    b.delete_char().unwrap();
    assert_eq!(b.get_text().unwrap(), "ab");
    assert_eq!(b.get_cursor_position(), pos(0, 2));
}

#[test]
fn selection_deletion_merges_lines() {
    let mut b = Buffer::new();
    b.set_text("abcde\nfghij".to_string()).unwrap();
    b.set_selection(pos(0, 2), pos(1, 3)).unwrap();
    b.delete_selection().unwrap();
    assert_eq!(lines_of(&b), vec!["abij".to_string()]);
    assert_eq!(b.get_cursor_position(), pos(0, 2));
    assert_eq!(b.get_selection(), None);
}

#[test]
fn selection_deletion_single_line() {
    let mut b = Buffer::new();
    b.set_text("abcde".to_string()).unwrap();
    b.set_selection(pos(0, 1), pos(0, 4)).unwrap();
    b.delete_selection().unwrap();
    assert_eq!(b.get_text().unwrap(), "ae");
    assert_eq!(b.get_cursor_position(), pos(0, 1));
}

#[test]
fn selection_deletion_across_three_lines() {
    let mut b = Buffer::new();
    b.set_text("one\ntwo\nthree".to_string()).unwrap();
    b.set_selection(pos(0, 1), pos(2, 2)).unwrap();
    b.delete_selection().unwrap();
    assert_eq!(b.get_text().unwrap(), "oree");
}

#[test]
fn delete_selection_without_selection_fails() {
    let mut b = Buffer::new();
    b.set_text("abc".to_string()).unwrap();
    assert_eq!(b.delete_selection(), Err(EditError::NoSelection));
    assert_eq!(b.get_text().unwrap(), "abc");
}

#[test]
fn insert_char_replaces_selection() {
    let mut b = Buffer::new();
    b.set_text("hello world".to_string()).unwrap();
    b.set_selection(pos(0, 5), pos(0, 11)).unwrap();
    b.insert_char('!').unwrap();
    assert_eq!(b.get_text().unwrap(), "hello!");
    assert_eq!(b.get_cursor_position(), pos(0, 6));
    assert_eq!(b.get_selection(), None);
}

#[test]
fn cursor_bounds_rejected() {
    let mut b = Buffer::new();
    b.set_text("ab\ncd".to_string()).unwrap();
    b.set_cursor_position(pos(1, 1)).unwrap();
    assert_eq!(b.set_cursor_position(pos(2, 0)), Err(EditError::OutOfBounds));
    assert_eq!(b.get_cursor_position(), pos(1, 1));
    assert_eq!(b.set_cursor_position(pos(0, 3)), Err(EditError::OutOfBounds));
    assert_eq!(b.get_cursor_position(), pos(1, 1));
    // The end-of-line column is a valid position.
    b.set_cursor_position(pos(0, 2)).unwrap();
    assert_eq!(b.get_cursor_position(), pos(0, 2));
}

#[test]
fn selection_bounds_rejected() {
    let mut b = Buffer::new();
    b.set_text("ab\ncd".to_string()).unwrap();
    assert_eq!(b.set_selection(pos(0, 0), pos(2, 0)), Err(EditError::OutOfBounds));
    assert_eq!(b.set_selection(pos(0, 3), pos(1, 0)), Err(EditError::OutOfBounds));
    assert_eq!(b.get_selection(), None);
}

#[test]
fn reversed_selection_is_normalized() {
    let mut b = Buffer::new();
    b.set_text("ab\ncd".to_string()).unwrap();
    b.set_selection(pos(1, 1), pos(0, 1)).unwrap();
    assert_eq!(b.get_selection(), Some((pos(0, 1), pos(1, 1))));
}

#[test]
fn clear_selection_drops_selection() {
    let mut b = Buffer::new();
    b.set_text("abc".to_string()).unwrap();
    b.set_selection(pos(0, 0), pos(0, 2)).unwrap();
    b.clear_selection().unwrap();
    assert_eq!(b.get_selection(), None);
}

#[test]
fn get_text_in_range_single_line() {
    let mut b = Buffer::new();
    b.set_text("hello world".to_string()).unwrap();
    assert_eq!(b.get_text_in_range(pos(0, 6), pos(0, 11)).unwrap(), "world");
}

#[test]
fn get_text_in_range_multi_line() {
    let mut b = Buffer::new();
    b.set_text("one\ntwo\nthree".to_string()).unwrap();
    assert_eq!(b.get_text_in_range(pos(0, 1), pos(2, 2)).unwrap(), "ne\ntwo\nth");
}

#[test]
fn get_text_in_range_rejects_bad_ranges() {
    let mut b = Buffer::new();
    b.set_text("ab\ncd".to_string()).unwrap();
    assert_eq!(b.get_text_in_range(pos(0, 0), pos(2, 0)), Err(EditError::OutOfBounds));
    assert_eq!(b.get_text_in_range(pos(1, 1), pos(0, 1)), Err(EditError::OutOfBounds));
}

#[test]
fn insert_text_handles_newlines_and_tabs() {
    let mut b = Buffer::new();
    b.set_text("xy".to_string()).unwrap();
    b.set_cursor_position(pos(0, 1)).unwrap();
    b.insert_text("a\nb\tc".to_string()).unwrap();
    assert_eq!(b.get_text().unwrap(), "xa\nb    cy");
}

#[test]
fn insert_text_empty_is_noop() {
    let mut b = Buffer::new();
    b.set_text("ab".to_string()).unwrap();
    b.insert_text(String::new()).unwrap();
    assert_eq!(b.get_text().unwrap(), "ab");
}

#[test]
fn insert_text_rejects_control_characters() {
    let mut b = Buffer::new();
    b.set_text("ab".to_string()).unwrap();
    assert_eq!(b.insert_text("x\u{7}y".to_string()), Err(EditError::InvalidText));
    assert_eq!(b.get_text().unwrap(), "ab");
}

#[test]
fn clear_resets_to_initial_state() {
    let mut b = Buffer::new();
    b.set_text("hello\nworld".to_string()).unwrap();
    b.set_selection(pos(0, 0), pos(1, 2)).unwrap();
    b.clear().unwrap();
    assert_eq!(lines_of(&b), vec![String::new()]);
    assert_eq!(b.get_cursor_position(), pos(0, 0));
    assert_eq!(b.get_selection(), None);
}

#[test]
fn append_line_adds_at_end() {
    let mut b = Buffer::new();
    b.set_text("one".to_string()).unwrap();
    b.append_line("two".to_string()).unwrap();
    assert_eq!(b.get_text().unwrap(), "one\ntwo");
}

#[test]
fn append_line_rejects_embedded_newline_or_tab() {
    let mut b = Buffer::new();
    assert_eq!(b.append_line("a\nb".to_string()), Err(EditError::InvalidText));
    assert_eq!(b.append_line("a\tb".to_string()), Err(EditError::InvalidText));
    assert_eq!(lines_of(&b), vec![String::new()]);
}

#[test]
fn get_current_line_follows_cursor() {
    let mut b = Buffer::new();
    b.set_text("one\ntwo".to_string()).unwrap();
    assert_eq!(b.get_current_line(), "one");
    b.set_cursor_position(pos(1, 2)).unwrap();
    assert_eq!(b.get_current_line(), "two");
}
