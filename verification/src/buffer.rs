//! The text buffer: an ordered store of lines with a cursor and an optional
//! selection, offering bounds-checked primitive edits and queries.

use vstd::prelude::*;
use crate::text::{
    allowed_char, chars_to_string, document_of, expand_one, expand_tabs, is_allowed_char,
    join_lines, lemma_document_wf, lemma_expand_head, lemma_expand_tabs_id, lemma_join_append,
    lemma_join_no_tab, lemma_join_push, lemma_split_append_no_newline, lemma_split_nonempty,
    line_ok, split_lines, str_to_chars, text_allowed,
};

verus! {

/// An address in the document: a 0-based line index and a 0-based column
/// (code-point offset) within that line. The end-of-line column, equal to the
/// line's length, is a valid position.
#[derive(Clone, Copy, Debug, PartialEq, Eq, Structural)]
pub struct Position {
    pub line: usize,
    pub column: usize,
}

/// Why a buffer operation was refused. Every operation reports a failure
/// instead of panicking.
#[derive(Clone, Copy, Debug, PartialEq, Eq, Structural)]
pub enum EditError {
    /// A position's line or column exceeds the current buffer bounds.
    OutOfBounds,
    /// An operation that needs an active selection was invoked without one.
    NoSelection,
    /// Input text holds a disallowed control character, or is empty where
    /// non-empty input is required.
    InvalidText,
    /// A line count or column would exceed the largest representable index.
    BufferOverflow,
}

/// The mathematical state of a buffer: the lines as character sequences, the
/// cursor, and the (normalized) selection.
#[verifier::ext_equal]
pub ghost struct BufferModel {
    pub lines: Seq<Seq<char>>,
    pub cursor: Position,
    pub selection: Option<(Position, Position)>,
}

/// `a` does not come after `b` in document order: by line first, then column.
pub open spec fn pos_le(a: Position, b: Position) -> bool {
    a.line < b.line || (a.line == b.line && a.column <= b.column)
}

impl BufferModel {
    /// `p` addresses an existing line, at a column no greater than that
    /// line's length.
    pub open spec fn valid_pos(self, p: Position) -> bool {
        p.line < self.lines.len() && p.column <= self.lines[p.line as int].len()
    }

    /// The buffer invariant: at least one line, every line free of embedded
    /// newlines and of literal tabs, the cursor valid, and the selection (if
    /// any) a pair of valid positions with the start not after the end.
    pub open spec fn wf(self) -> bool {
        &&& self.lines.len() >= 1
        &&& forall|i: int| 0 <= i < self.lines.len() ==> line_ok(#[trigger] self.lines[i])
        &&& self.valid_pos(self.cursor)
        &&& match self.selection {
            Some((s, e)) => self.valid_pos(s) && self.valid_pos(e) && pos_le(s, e),
            None => true,
        }
    }

    /// The whole document as one text: the lines joined by newlines.
    pub open spec fn text(self) -> Seq<char> {
        join_lines(self.lines)
    }
}

/// The buffer after the selected range is deleted: within one line the
/// columns `[start, end)` disappear; across lines the start line's prefix and
/// the end line's suffix merge into one line and everything between goes. The
/// cursor moves to the former start and the selection is cleared. Identity
/// when no selection is active.
pub open spec fn delete_selection_m(b: BufferModel) -> BufferModel {
    match b.selection {
        Some((s, e)) => {
            let first = b.lines[s.line as int];
            let last = b.lines[e.line as int];
            let merged = first.take(s.column as int) + last.skip(e.column as int);
            let lines = if s.line == e.line {
                b.lines.update(s.line as int, merged)
            } else {
                b.lines.take(s.line as int) + seq![merged] + b.lines.skip(e.line + 1)
            };
            BufferModel { lines, cursor: s, selection: None }
        },
        None => b,
    }
}

/// The buffer after one character is inserted at the cursor (no selection
/// involved): a newline splits the current line at the cursor column and
/// moves the cursor to the start of the new line; any other character
/// contributes `expand_one` of itself — four spaces for a tab, itself
/// otherwise — and advances the cursor past what was inserted.
pub open spec fn insert_at_cursor(b: BufferModel, c: char) -> BufferModel {
    let li = b.cursor.line as int;
    let col = b.cursor.column as int;
    let l = b.lines[li];
    if c == '\n' {
        BufferModel {
            lines: b.lines.update(li, l.take(col)).insert(li + 1, l.skip(col)),
            cursor: Position { line: (b.cursor.line + 1) as usize, column: 0 },
            selection: b.selection,
        }
    } else {
        BufferModel {
            lines: b.lines.update(li, l.take(col) + expand_one(c) + l.skip(col)),
            cursor: Position {
                line: b.cursor.line,
                column: (b.cursor.column + expand_one(c).len()) as usize,
            },
            selection: b.selection,
        }
    }
}

/// The column at which `insert_char` will insert: the selection start if a
/// selection is about to be replaced, the cursor column otherwise.
pub open spec fn insert_target_column(b: BufferModel) -> int {
    match b.selection {
        Some((s, _)) => s.column as int,
        None => b.cursor.column as int,
    }
}

/// Inserting succeeds unless the advanced cursor column would exceed the
/// largest representable index — impossible to reach in practice.
pub open spec fn insert_char_ok(b: BufferModel, c: char) -> bool {
    c == '\n' || insert_target_column(b) + expand_one(c).len() <= usize::MAX
}

/// The buffer after `insert_char`: an active selection is deleted first
/// (placing the cursor at its former start), then the character is inserted
/// at the cursor.
pub open spec fn insert_char_m(b: BufferModel, c: char) -> BufferModel {
    let b1 = match b.selection {
        Some(_) => delete_selection_m(b),
        None => b,
    };
    insert_at_cursor(b1, c)
}

/// The buffer after the character before the cursor is removed and the
/// cursor steps back one column. The selection is cleared, since the edit
/// could invalidate stored endpoints.
pub open spec fn delete_char_m(b: BufferModel) -> BufferModel {
    let li = b.cursor.line as int;
    let col = b.cursor.column as int;
    let l = b.lines[li];
    BufferModel {
        lines: b.lines.update(li, l.take(col - 1) + l.skip(col)),
        cursor: Position { line: b.cursor.line, column: (b.cursor.column - 1) as usize },
        selection: None,
    }
}

/// Backspace works exactly when the cursor is not at the start of its line.
pub open spec fn delete_char_ok(b: BufferModel) -> bool {
    b.cursor.column > 0
}

/// Deleting the selection preserves the invariant and leaves the cursor at
/// the former selection start with no selection active.
pub proof fn lemma_delete_selection_wf(b: BufferModel)
    requires
        b.wf(),
        b.selection is Some,
    ensures
        delete_selection_m(b).wf(),
        delete_selection_m(b).selection is None,
        match b.selection {
            Some((s, _)) => delete_selection_m(b).cursor == s,
            None => true,
        },
{
    let r = delete_selection_m(b);
    match b.selection {
        Some((s, e)) => {
            let first = b.lines[s.line as int];
            let last = b.lines[e.line as int];
            let merged = first.take(s.column as int) + last.skip(e.column as int);
            assert(line_ok(merged)) by {
                assert(forall|i: int|
                    0 <= i < merged.len() ==> #[trigger] merged[i] == if i < s.column {
                        first[i]
                    } else {
                        last[i - s.column + e.column]
                    });
            }
            if s.line == e.line {
                assert(forall|i: int| 0 <= i < r.lines.len() ==> line_ok(#[trigger] r.lines[i]));
            } else {
                assert(forall|i: int|
                    0 <= i < r.lines.len() ==> #[trigger] r.lines[i] == if i < s.line {
                        b.lines[i]
                    } else if i == s.line {
                        merged
                    } else {
                        b.lines[i + e.line - s.line]
                    });
                assert(forall|i: int| 0 <= i < r.lines.len() ==> line_ok(#[trigger] r.lines[i]));
            }
        },
        None => {},
    }
}

/// Inserting one character at the cursor of a selection-free buffer
/// preserves the invariant.
pub proof fn lemma_insert_at_cursor_wf(b: BufferModel, c: char)
    requires
        b.wf(),
        b.selection is None,
        c == '\n' || b.cursor.column + expand_one(c).len() <= usize::MAX,
    ensures
        insert_at_cursor(b, c).wf(),
        insert_at_cursor(b, c).selection is None,
{
    let r = insert_at_cursor(b, c);
    let li = b.cursor.line as int;
    let col = b.cursor.column as int;
    let l = b.lines[li];
    if c == '\n' {
        assert(forall|i: int|
            0 <= i < r.lines.len() ==> #[trigger] r.lines[i] == if i < li {
                b.lines[i]
            } else if i == li {
                l.take(col)
            } else if i == li + 1 {
                l.skip(col)
            } else {
                b.lines[i - 1]
            });
        assert(line_ok(l.take(col)));
        assert(line_ok(l.skip(col)));
        assert(forall|i: int| 0 <= i < r.lines.len() ==> line_ok(#[trigger] r.lines[i]));
    } else {
        let nl = l.take(col) + expand_one(c) + l.skip(col);
        assert(c != '\n' && c != '\t' ==> expand_one(c) =~= seq![c]);
        assert(line_ok(nl)) by {
            assert(forall|i: int|
                0 <= i < nl.len() ==> #[trigger] nl[i] == if i < col {
                    l[i]
                } else if i < col + expand_one(c).len() {
                    expand_one(c)[i - col]
                } else {
                    l.skip(col)[i - col - expand_one(c).len()]
                });
        }
        assert(forall|i: int| 0 <= i < r.lines.len() ==> line_ok(#[trigger] r.lines[i]));
    }
}

/// `insert_char` preserves the invariant and always clears the selection.
pub proof fn lemma_insert_char_wf(b: BufferModel, c: char)
    requires
        b.wf(),
        insert_char_ok(b, c),
    ensures
        insert_char_m(b, c).wf(),
        insert_char_m(b, c).selection is None,
{
    match b.selection {
        Some(_) => {
            lemma_delete_selection_wf(b);
            lemma_insert_at_cursor_wf(delete_selection_m(b), c);
        },
        None => {
            lemma_insert_at_cursor_wf(b, c);
        },
    }
}

/// Backspace preserves the invariant.
pub proof fn lemma_delete_char_wf(b: BufferModel)
    requires
        b.wf(),
        delete_char_ok(b),
    ensures
        delete_char_m(b).wf(),
{
    let r = delete_char_m(b);
    let li = b.cursor.line as int;
    let col = b.cursor.column as int;
    let l = b.lines[li];
    let nl = l.take(col - 1) + l.skip(col);
    assert(line_ok(nl)) by {
        assert(forall|i: int|
            0 <= i < nl.len() ==> #[trigger] nl[i] == if i < col - 1 {
                l[i]
            } else {
                l[i + 1]
            });
    }
    assert(forall|i: int| 0 <= i < r.lines.len() ==> line_ok(#[trigger] r.lines[i]));
}

/// A text may replace the document when it is non-empty and holds no control
/// character other than newline, tab and carriage return.
pub open spec fn set_text_ok(t: Seq<char>) -> bool {
    t.len() > 0 && text_allowed(t)
}

/// The outcome of inserting the characters of `t` one by one at the cursor:
/// the state reached, and the first failure if one of the single-character
/// insertions was refused (only possible at the representability limit).
pub open spec fn insert_text_run(b: BufferModel, t: Seq<char>) -> (BufferModel, Result<
    (),
    EditError,
>)
    decreases t.len(),
{
    if t.len() == 0 {
        (b, Ok(()))
    } else if !insert_char_ok(b, t[0]) {
        (b, Err(EditError::BufferOverflow))
    } else {
        insert_text_run(insert_char_m(b, t[0]), t.drop_first())
    }
}

/// Character-by-character insertion preserves the invariant wherever it
/// stops, and leaves no selection active once at least one character went in.
pub proof fn lemma_insert_text_run_wf(b: BufferModel, t: Seq<char>)
    requires
        b.wf(),
    ensures
        insert_text_run(b, t).0.wf(),
    decreases t.len(),
{
    if t.len() != 0 && insert_char_ok(b, t[0]) {
        lemma_insert_char_wf(b, t[0]);
        lemma_insert_text_run_wf(insert_char_m(b, t[0]), t.drop_first());
    }
}

/// Both ends of the range are valid and the start is not after the end.
pub open spec fn range_ok(b: BufferModel, s: Position, e: Position) -> bool {
    b.valid_pos(s) && b.valid_pos(e) && pos_le(s, e)
}

/// The lines spanned by a range: within one line, the selected columns; over
/// several, the start line's suffix, the whole lines between, and the end
/// line's prefix.
pub open spec fn range_lines(b: BufferModel, s: Position, e: Position) -> Seq<Seq<char>> {
    if s.line == e.line {
        seq![b.lines[s.line as int].subrange(s.column as int, e.column as int)]
    } else {
        seq![b.lines[s.line as int].skip(s.column as int)] + b.lines.subrange(
            s.line + 1,
            e.line as int,
        ) + seq![b.lines[e.line as int].take(e.column as int)]
    }
}

/// The text of a range: its spanned lines joined by newlines.
pub open spec fn range_text(b: BufferModel, s: Position, e: Position) -> Seq<char> {
    join_lines(range_lines(b, s, e))
}

/// Everything of the joined text that comes before line `li`: the earlier
/// lines joined, plus the newline that separates them from line `li`.
pub open spec fn line_prefix(lines: Seq<Seq<char>>, li: int) -> Seq<char> {
    if li == 0 {
        Seq::empty()
    } else {
        join_lines(lines.take(li)) + seq!['\n']
    }
}

/// Everything of the joined text that comes after line `li`: the separating
/// newline plus the later lines joined, or nothing for the last line.
pub open spec fn line_suffix(lines: Seq<Seq<char>>, li: int) -> Seq<char> {
    if li + 1 < lines.len() {
        seq!['\n'] + join_lines(lines.skip(li + 1))
    } else {
        Seq::empty()
    }
}

/// The character offset of a position within the joined text.
pub open spec fn doc_offset(lines: Seq<Seq<char>>, p: Position) -> int {
    line_prefix(lines, p.line as int).len() + p.column
}

/// The joined text decomposes around any line: what comes before it, the
/// line itself, and what comes after it.
pub proof fn lemma_join_decompose(lines: Seq<Seq<char>>, li: int)
    requires
        0 <= li < lines.len(),
    ensures
        join_lines(lines) == line_prefix(lines, li) + lines[li] + line_suffix(lines, li),
{
    if li == 0 {
        if lines.len() == 1 {
            assert(join_lines(lines) == lines[0]);
            assert(join_lines(lines) =~= line_prefix(lines, 0) + lines[0] + line_suffix(
                lines,
                0,
            ));
        } else {
            assert(lines =~= seq![lines[0]] + lines.skip(1));
            lemma_join_append(seq![lines[0]], lines.skip(1));
            assert(join_lines(seq![lines[0]]) == lines[0]);
            assert(join_lines(lines) =~= line_prefix(lines, 0) + lines[0] + line_suffix(
                lines,
                0,
            ));
        }
    } else {
        assert(lines =~= lines.take(li) + lines.skip(li));
        lemma_join_append(lines.take(li), lines.skip(li));
        if li + 1 < lines.len() {
            assert(lines.skip(li) =~= seq![lines[li]] + lines.skip(li + 1));
            lemma_join_append(seq![lines[li]], lines.skip(li + 1));
            assert(join_lines(seq![lines[li]]) == lines[li]);
            assert(join_lines(lines) =~= line_prefix(lines, li) + lines[li] + line_suffix(
                lines,
                li,
            ));
        } else {
            assert(lines.skip(li) =~= seq![lines[li]]);
            assert(join_lines(lines.skip(li)) == lines.skip(li)[0]);
            assert(join_lines(lines) =~= line_prefix(lines, li) + lines[li] + line_suffix(
                lines,
                li,
            ));
        }
    }
}

/// The joined text decomposes around any segment of lines: the prefix of
/// the first, the segment joined, and the suffix of the last.
pub proof fn lemma_join_sub(lines: Seq<Seq<char>>, i: int, j: int)
    requires
        0 <= i <= j < lines.len(),
    ensures
        join_lines(lines) == line_prefix(lines, i) + join_lines(lines.subrange(i, j + 1))
            + line_suffix(lines, j),
    decreases j - i,
{
    if i == j {
        assert(lines.subrange(i, i + 1) =~= seq![lines[i]]);
        assert(join_lines(lines.subrange(i, i + 1)) == lines[i]);
        lemma_join_decompose(lines, i);
    } else {
        lemma_join_sub(lines, i + 1, j);
        // The prefix of line i + 1 extends the prefix of line i by that line
        // and a newline.
        assert(lines.take(i + 1) =~= lines.take(i).push(lines[i]));
        if i > 0 {
            lemma_join_push(lines.take(i), lines[i]);
        } else {
            assert(join_lines(lines.take(1)) == lines.take(1)[0]);
        }
        assert(line_prefix(lines, i + 1) =~= line_prefix(lines, i) + lines[i] + seq!['\n']);
        // The segment from i starts with line i.
        assert(lines.subrange(i, j + 1) =~= seq![lines[i]] + lines.subrange(i + 1, j + 1));
        lemma_join_append(seq![lines[i]], lines.subrange(i + 1, j + 1));
        assert(join_lines(seq![lines[i]]) == lines[i]);
        assert(line_prefix(lines, i) + join_lines(lines.subrange(i, j + 1)) + line_suffix(
            lines,
            j,
        ) =~= line_prefix(lines, i + 1) + join_lines(lines.subrange(i + 1, j + 1)) + line_suffix(
            lines,
            j,
        ));
    }
}

/// A valid position's offset lies within the joined text.
pub proof fn lemma_doc_offset_bounds(b: BufferModel, p: Position)
    requires
        b.wf(),
        b.valid_pos(p),
    ensures
        0 <= doc_offset(b.lines, p) <= b.text().len(),
{
    lemma_join_decompose(b.lines, p.line as int);
}

/// Inserting one character at the cursor edits the joined text by splicing
/// in what the character contributes at the cursor's offset, and moves the
/// cursor's offset past it. The line count and the advanced column must be
/// representable, as they are in any buffer a machine can hold.
#[verifier::rlimit(50)]
pub proof fn lemma_insert_at_cursor_text(b: BufferModel, c: char)
    requires
        b.wf(),
        b.selection is None,
        b.lines.len() <= usize::MAX,
        c == '\n' || b.cursor.column + expand_one(c).len() <= usize::MAX,
    ensures
        ({
            let r = insert_at_cursor(b, c);
            let off = doc_offset(b.lines, b.cursor);
            &&& r.text() == b.text().take(off) + expand_one(c) + b.text().skip(off)
            &&& doc_offset(r.lines, r.cursor) == off + expand_one(c).len()
        }),
{
    let li = b.cursor.line as int;
    let col = b.cursor.column as int;
    let l = b.lines[li];
    let t = b.text();
    let p = line_prefix(b.lines, li);
    let s = line_suffix(b.lines, li);
    let off = doc_offset(b.lines, b.cursor);
    lemma_join_decompose(b.lines, li);
    assert(t.take(off) =~= p + l.take(col));
    assert(t.skip(off) =~= l.skip(col) + s);
    let r = insert_at_cursor(b, c);
    if c == '\n' {
        let nl2 = b.lines.take(li) + seq![l.take(col)] + seq![l.skip(col)] + b.lines.skip(li + 1);
        assert(r.lines =~= nl2);
        assert(nl2[li] == l.take(col));
        assert(nl2.take(li) =~= b.lines.take(li));
        lemma_join_decompose(nl2, li);
        assert(line_prefix(nl2, li) == p);
        assert(li + 1 < nl2.len());
        if li + 1 < b.lines.len() {
            assert(nl2.skip(li + 1) =~= seq![l.skip(col)] + b.lines.skip(li + 1));
            lemma_join_append(seq![l.skip(col)], b.lines.skip(li + 1));
            assert(join_lines(seq![l.skip(col)]) == l.skip(col));
            assert(r.text() =~= t.take(off) + expand_one(c) + t.skip(off));
        } else {
            assert(nl2.skip(li + 1) =~= seq![l.skip(col)]);
            assert(join_lines(nl2.skip(li + 1)) == nl2.skip(li + 1)[0]);
            assert(r.text() =~= t.take(off) + expand_one(c) + t.skip(off));
        }
        // The new cursor stands at the start of the new line, one past the
        // inserted newline.
        assert(r.lines.take(li + 1) =~= b.lines.take(li).push(l.take(col)));
        if li > 0 {
            lemma_join_push(b.lines.take(li), l.take(col));
            assert(doc_offset(r.lines, r.cursor) == off + 1);
        } else {
            assert(join_lines(r.lines.take(1)) == r.lines.take(1)[0]);
            assert(doc_offset(r.lines, r.cursor) == off + 1);
        }
    } else {
        let e = expand_one(c);
        let nl = l.take(col) + e + l.skip(col);
        assert(r.lines == b.lines.update(li, nl));
        assert(r.lines[li] == nl);
        assert(r.lines.take(li) =~= b.lines.take(li));
        assert(r.lines.skip(li + 1) =~= b.lines.skip(li + 1));
        lemma_join_decompose(r.lines, li);
        assert(line_prefix(r.lines, li) == p);
        assert(line_suffix(r.lines, li) == s);
        assert(r.text() =~= t.take(off) + e + t.skip(off));
        assert(doc_offset(r.lines, r.cursor) == off + e.len());
    }
}

/// A successful character-by-character insertion splices the whole text's
/// tab-expanded contribution in at the starting cursor offset, and leaves
/// the cursor's offset right after it. The document must stay representable,
/// as any buffer a machine can hold does.
#[verifier::rlimit(50)]
pub proof fn lemma_insert_text_run_text(b: BufferModel, t: Seq<char>)
    requires
        b.wf(),
        b.selection is None,
        b.lines.len() + t.len() <= usize::MAX,
        insert_text_run(b, t).1 is Ok,
    ensures
        ({
            let r = insert_text_run(b, t).0;
            let off = doc_offset(b.lines, b.cursor);
            &&& r.wf()
            &&& r.selection is None
            &&& r.lines.len() <= b.lines.len() + t.len()
            &&& r.text() == b.text().take(off) + expand_tabs(t) + b.text().skip(off)
            &&& doc_offset(r.lines, r.cursor) == off + expand_tabs(t).len()
        }),
    decreases t.len(),
{
    let off = doc_offset(b.lines, b.cursor);
    if t.len() == 0 {
        lemma_doc_offset_bounds(b, b.cursor);
        assert(expand_tabs(t) =~= Seq::<char>::empty());
        assert(b.text().take(off) + expand_tabs(t) + b.text().skip(off) =~= b.text());
    } else {
        let c = t[0];
        assert(insert_char_ok(b, c));
        assert(insert_char_m(b, c) == insert_at_cursor(b, c));
        lemma_insert_at_cursor_text(b, c);
        lemma_insert_char_wf(b, c);
        let b1 = insert_char_m(b, c);
        assert(b1.lines.len() <= b.lines.len() + 1);
        assert(insert_text_run(b, t) == insert_text_run(b1, t.drop_first()));
        lemma_insert_text_run_text(b1, t.drop_first());
        let r = insert_text_run(b, t).0;
        let t1 = b.text();
        let e = expand_one(c);
        let off1 = off + e.len();
        lemma_doc_offset_bounds(b, b.cursor);
        assert(b1.text().take(off1) =~= t1.take(off) + e);
        assert(b1.text().skip(off1) =~= t1.skip(off));
        lemma_expand_head(t);
        assert(r.text() =~= t1.take(off) + expand_tabs(t) + t1.skip(off));
        assert(doc_offset(r.lines, r.cursor) == off + expand_tabs(t).len());
    }
}

/// Deleting the selection removes exactly the characters between the two
/// endpoint offsets from the joined text, and leaves the former start at
/// its old offset.
#[verifier::rlimit(50)]
pub proof fn lemma_delete_selection_text(b: BufferModel)
    requires
        b.wf(),
        b.selection is Some,
    ensures
        match b.selection {
            Some((s, e)) => {
                let r = delete_selection_m(b);
                &&& r.text() == b.text().take(doc_offset(b.lines, s)) + b.text().skip(
                    doc_offset(b.lines, e),
                )
                &&& doc_offset(r.lines, s) == doc_offset(b.lines, s)
            },
            None => true,
        },
{
    match b.selection {
        Some((s, e)) => {
            let li = s.line as int;
            let ei = e.line as int;
            let first = b.lines[li];
            let last = b.lines[ei];
            let t = b.text();
            let off_s = doc_offset(b.lines, s);
            let off_e = doc_offset(b.lines, e);
            let r = delete_selection_m(b);
            lemma_join_decompose(b.lines, li);
            lemma_join_decompose(b.lines, ei);
            assert(t.take(off_s) =~= line_prefix(b.lines, li) + first.take(s.column as int));
            assert(t.skip(off_e) =~= last.skip(e.column as int) + line_suffix(b.lines, ei));
            if li == ei {
                assert(r.lines.take(li) =~= b.lines.take(li));
                assert(r.lines.skip(li + 1) =~= b.lines.skip(li + 1));
                lemma_join_decompose(r.lines, li);
                assert(line_prefix(r.lines, li) == line_prefix(b.lines, li));
                assert(line_suffix(r.lines, li) == line_suffix(b.lines, li));
                assert(r.text() =~= t.take(off_s) + t.skip(off_e));
            } else {
                let merged = first.take(s.column as int) + last.skip(e.column as int);
                let nl2 = b.lines.take(li) + seq![merged] + b.lines.skip(ei + 1);
                assert(r.lines =~= nl2);
                assert(nl2.take(li) =~= b.lines.take(li));
                assert(nl2[li] == merged);
                assert(nl2.skip(li + 1) =~= b.lines.skip(ei + 1));
                lemma_join_decompose(nl2, li);
                assert(line_prefix(nl2, li) == line_prefix(b.lines, li));
                assert(nl2.len() - (li + 1) == b.lines.len() - (ei + 1));
                assert(line_suffix(nl2, li) == line_suffix(b.lines, ei));
                assert(r.text() =~= t.take(off_s) + t.skip(off_e));
            }
            assert(r.lines.take(li) =~= b.lines.take(li));
            assert(doc_offset(r.lines, s) == off_s);
        },
        None => {},
    }
}

/// The text of a range is exactly the slice of the joined text between the
/// two endpoint offsets.
#[verifier::rlimit(100)]
pub proof fn lemma_range_text(b: BufferModel, s: Position, e: Position)
    requires
        b.wf(),
        range_ok(b, s, e),
    ensures
        range_text(b, s, e) == b.text().subrange(
            doc_offset(b.lines, s),
            doc_offset(b.lines, e),
        ),
        0 <= doc_offset(b.lines, s) <= doc_offset(b.lines, e) <= b.text().len(),
{
    lemma_doc_offset_bounds(b, s);
    lemma_doc_offset_bounds(b, e);
    let t = b.text();
    let li = s.line as int;
    let ei = e.line as int;
    let off_s = doc_offset(b.lines, s);
    let off_e = doc_offset(b.lines, e);
    let rl = range_lines(b, s, e);
    lemma_join_decompose(b.lines, li);
    lemma_join_decompose(b.lines, ei);
    if li == ei {
        assert(rl.len() == 1);
        assert(join_lines(rl) == rl[0]);
        assert(t.subrange(off_s, off_e) =~= b.lines[li].subrange(
            s.column as int,
            e.column as int,
        ));
    } else {
        let first = b.lines[li];
        let last = b.lines[ei];
        let sc = s.column as int;
        let ec = e.column as int;
        lemma_join_sub(b.lines, li, ei);
        let sub = b.lines.subrange(li, ei + 1);
        let seg = join_lines(sub);
        let ps = line_prefix(b.lines, li);
        let pe = line_prefix(b.lines, ei);
        let se = line_suffix(b.lines, ei);
        // The same text decomposed two ways fixes where the last line starts
        // within the segment.
        assert(t == ps + seg + se);
        assert(t == pe + last + se);
        assert(pe.len() + last.len() == ps.len() + seg.len());
        let mid = b.lines.subrange(li + 1, ei);
        if mid.len() > 0 {
            let m = join_lines(mid) + seq!['\n'];
            // The segment and the range's lines share everything between the
            // trimmed first and last lines.
            assert(sub =~= seq![first] + (mid + seq![last]));
            lemma_join_append(seq![first], mid + seq![last]);
            assert(join_lines(seq![first]) == first);
            lemma_join_append(mid, seq![last]);
            assert(join_lines(seq![last]) == last);
            assert(seg =~= first + seq!['\n'] + m + last);
            assert(rl =~= seq![first.skip(sc)] + (mid + seq![last.take(ec)]));
            lemma_join_append(seq![first.skip(sc)], mid + seq![last.take(ec)]);
            assert(join_lines(seq![first.skip(sc)]) == first.skip(sc));
            lemma_join_append(mid, seq![last.take(ec)]);
            assert(join_lines(seq![last.take(ec)]) == last.take(ec));
            assert(join_lines(rl) =~= first.skip(sc) + seq!['\n'] + m + last.take(ec));
            assert(t =~= ps + first + seq!['\n'] + m + last + se);
            assert(t.subrange(off_s, off_e) =~= join_lines(rl));
        } else {
            assert(sub =~= seq![first] + seq![last]);
            lemma_join_append(seq![first], seq![last]);
            assert(join_lines(seq![first]) == first);
            assert(join_lines(seq![last]) == last);
            assert(seg =~= first + seq!['\n'] + last);
            assert(rl =~= seq![first.skip(sc)] + seq![last.take(ec)]);
            lemma_join_append(seq![first.skip(sc)], seq![last.take(ec)]);
            assert(join_lines(seq![first.skip(sc)]) == first.skip(sc));
            assert(join_lines(seq![last.take(ec)]) == last.take(ec));
            assert(join_lines(rl) =~= first.skip(sc) + seq!['\n'] + last.take(ec));
            assert(t =~= ps + first + seq!['\n'] + last + se);
            assert(t.subrange(off_s, off_e) =~= join_lines(rl));
        }
    }
}

/// Law: copy and paste duplicate the selected span. Pasting the text of the
/// range `[s, e)` into the same document at a cursor `p` (with no selection
/// active) yields the original text with that span spliced in at `p`'s
/// offset. The hypotheses ask only that the machine can represent the
/// result and that no single insertion hits the representability limit.
pub proof fn lemma_copy_paste_round_trip(b: BufferModel, s: Position, e: Position, p: Position)
    requires
        b.wf(),
        range_ok(b, s, e),
        b.valid_pos(p),
        b.lines.len() + range_text(b, s, e).len() <= usize::MAX,
        insert_text_run(
            BufferModel { lines: b.lines, cursor: p, selection: None },
            range_text(b, s, e),
        ).1 is Ok,
    ensures
        ({
            let pb = BufferModel { lines: b.lines, cursor: p, selection: None };
            let span = b.text().subrange(doc_offset(b.lines, s), doc_offset(b.lines, e));
            let off_p = doc_offset(b.lines, p);
            insert_text_run(pb, range_text(b, s, e)).0.text() == b.text().take(off_p) + span
                + b.text().skip(off_p)
        }),
{
    let pb = BufferModel { lines: b.lines, cursor: p, selection: None };
    let clip = range_text(b, s, e);
    lemma_range_text(b, s, e);
    lemma_join_no_tab(b.lines);
    assert(forall|i: int| 0 <= i < clip.len() ==> #[trigger] clip[i] != '\t');
    lemma_expand_tabs_id(clip);
    assert(pb.wf());
    assert(pb.text() == b.text());
    assert(doc_offset(pb.lines, pb.cursor) == doc_offset(b.lines, p));
    lemma_insert_text_run_text(pb, clip);
}

/// Law: cut and paste move the selected span. After deleting the selection
/// `[s, e)`, pasting its text at a cursor `p` of the shortened document
/// yields the shortened text with the span spliced in at `p`'s offset. The
/// hypotheses ask only that `p` is valid after the deletion, that the
/// machine can represent the result, and that no single insertion hits the
/// representability limit.
pub proof fn lemma_cut_paste_round_trip(b: BufferModel, s: Position, e: Position, p: Position)
    requires
        b.wf(),
        b.selection == Some((s, e)),
        delete_selection_m(b).valid_pos(p),
        delete_selection_m(b).lines.len() + range_text(b, s, e).len() <= usize::MAX,
        insert_text_run(
            BufferModel { lines: delete_selection_m(b).lines, cursor: p, selection: None },
            range_text(b, s, e),
        ).1 is Ok,
    ensures
        ({
            let pb = BufferModel { lines: delete_selection_m(b).lines, cursor: p, selection: None };
            let span = b.text().subrange(doc_offset(b.lines, s), doc_offset(b.lines, e));
            let shortened = b.text().take(doc_offset(b.lines, s)) + b.text().skip(
                doc_offset(b.lines, e),
            );
            let off_p = doc_offset(pb.lines, p);
            insert_text_run(pb, range_text(b, s, e)).0.text() == shortened.take(off_p) + span
                + shortened.skip(off_p)
        }),
{
    let bd = delete_selection_m(b);
    let pb = BufferModel { lines: bd.lines, cursor: p, selection: None };
    let clip = range_text(b, s, e);
    lemma_range_text(b, s, e);
    lemma_delete_selection_text(b);
    lemma_delete_selection_wf(b);
    lemma_join_no_tab(b.lines);
    assert(forall|i: int| 0 <= i < clip.len() ==> #[trigger] clip[i] != '\t');
    lemma_expand_tabs_id(clip);
    assert(pb.wf());
    assert(pb.text() == bd.text());
    assert(doc_offset(pb.lines, pb.cursor) == doc_offset(bd.lines, p));
    lemma_insert_text_run_text(pb, clip);
}

/// The state of a freshly created or cleared buffer: one empty line, the
/// cursor at the origin, no selection.
pub open spec fn empty_buffer() -> BufferModel {
    BufferModel {
        lines: seq![Seq::<char>::empty()],
        cursor: Position { line: 0, column: 0 },
        selection: None,
    }
}

/// The line store of a buffer as a sequence of character sequences.
pub open spec fn lines_view(v: Seq<Vec<char>>) -> Seq<Seq<char>> {
    v.map_values(|l: Vec<char>| l@)
}

/// Builds the line made of `a`'s first `a_end` characters, then all of
/// `mid`, then `b`'s characters from `b_start` on.
fn concat_parts(a: &Vec<char>, a_end: usize, mid: &Vec<char>, b: &Vec<char>, b_start: usize) -> (r:
    Vec<char>)
    requires
        a_end <= a@.len(),
        b_start <= b@.len(),
    ensures
        r@ == a@.take(a_end as int) + mid@ + b@.skip(b_start as int),
{
    let mut r: Vec<char> = Vec::new();
    let mut i: usize = 0;
    while i < a_end
        invariant
            i <= a_end <= a@.len(),
            r@ == a@.take(i as int),
        decreases a_end - i,
    {
        r.push(a[i]);
        assert(a@.take(i + 1) =~= a@.take(i as int).push(a@[i as int]));
        i = i + 1;
    }
    let mut j: usize = 0;
    while j < mid.len()
        invariant
            j <= mid@.len(),
            a_end <= a@.len(),
            r@ == a@.take(a_end as int) + mid@.take(j as int),
        decreases mid@.len() - j,
    {
        r.push(mid[j]);
        assert(a@.take(a_end as int) + mid@.take(j + 1) =~= (a@.take(a_end as int) + mid@.take(
            j as int,
        )).push(mid@[j as int]));
        j = j + 1;
    }
    assert(mid@.take(mid@.len() as int) =~= mid@);
    let mut k: usize = b_start;
    while k < b.len()
        invariant
            b_start <= k <= b@.len(),
            a_end <= a@.len(),
            r@ == a@.take(a_end as int) + mid@ + b@.subrange(b_start as int, k as int),
        decreases b@.len() - k,
    {
        r.push(b[k]);
        assert(a@.take(a_end as int) + mid@ + b@.subrange(b_start as int, k + 1) =~= (a@.take(
            a_end as int,
        ) + mid@ + b@.subrange(b_start as int, k as int)).push(b@[k as int]));
        k = k + 1;
    }
    assert(b@.subrange(b_start as int, b@.len() as int) =~= b@.skip(b_start as int));
    r
}

/// Appends the characters `l[from..to]` to `acc`.
fn push_range(acc: &mut Vec<char>, l: &Vec<char>, from: usize, to: usize)
    requires
        from <= to <= l@.len(),
    ensures
        final(acc)@ == old(acc)@ + l@.subrange(from as int, to as int),
{
    let mut k: usize = from;
    while k < to
        invariant
            from <= k <= to <= l@.len(),
            acc@ == old(acc)@ + l@.subrange(from as int, k as int),
        decreases to - k,
    {
        acc.push(l[k]);
        assert(old(acc)@ + l@.subrange(from as int, k + 1) =~= (old(acc)@ + l@.subrange(
            from as int,
            k as int,
        )).push(l@[k as int]));
        k = k + 1;
    }
}

/// The line-oriented text store. It owns the lines, the cursor and the
/// selection; it knows nothing of history or clipboard.
pub struct Buffer {
    lines: Vec<Vec<char>>,
    cursor: Position,
    selection: Option<(Position, Position)>,
}

impl View for Buffer {
    type V = BufferModel;

    closed spec fn view(&self) -> BufferModel {
        BufferModel {
            lines: lines_view(self.lines@),
            cursor: self.cursor,
            selection: self.selection,
        }
    }
}

impl Buffer {
    /// A new buffer holding a single empty line.
    pub fn new() -> (b: Buffer)
        ensures
            b@ == empty_buffer(),
            b@.wf(),
    {
        let mut lines: Vec<Vec<char>> = Vec::new();
        lines.push(Vec::new());
        let b = Buffer {
            lines,
            cursor: Position { line: 0, column: 0 },
            selection: None,
        };
        proof {
            assert(b@.lines =~= empty_buffer().lines);
            assert(b@ =~= empty_buffer());
        }
        b
    }

    /// Deletes the selected range, merging the start and end lines when the
    /// range spans several. The cursor moves to the former selection start
    /// and the selection is cleared. Fails with `NoSelection`, leaving the
    /// buffer unchanged, exactly when no selection is active.
    pub fn delete_selection(&mut self) -> (r: Result<(), EditError>)
        requires
            old(self)@.wf(),
        ensures
            final(self)@.wf(),
            old(self)@.selection is Some ==> r == Ok::<(), EditError>(()) && final(self)@
                == delete_selection_m(old(self)@),
            old(self)@.selection is None ==> r == Err::<(), EditError>(EditError::NoSelection)
                && final(self)@ == old(self)@,
    {
        let (start, end) = match self.selection {
            Some(p) => p,
            None => {
                return Err(EditError::NoSelection);
            },
        };
        let ghost m = delete_selection_m(old(self)@);
        proof {
            lemma_delete_selection_wf(old(self)@);
        }
        let empty_mid: Vec<char> = Vec::new();
        let merged = concat_parts(
            &self.lines[start.line],
            start.column,
            &empty_mid,
            &self.lines[end.line],
            end.column,
        );
        if start.line == end.line {
            self.lines[start.line] = merged;
        } else {
            let n = end.line - start.line;
            let mut k: usize = 0;
            while k < n
                invariant
                    k <= n,
                    old(self)@.wf(),
                    old(self)@.selection == Some::<(Position, Position)>((start, end)),
                    n == end.line - start.line,
                    start.line < end.line < old(self)@.lines.len(),
                    self.lines@.len() == old(self).lines@.len() - k,
                    self.lines@ == old(self).lines@.take(start.line + 1) + old(self).lines@.skip(
                        start.line + 1 + k,
                    ),
                decreases n - k,
            {
                self.lines.remove(start.line + 1);
                proof {
                    assert(self.lines@ =~= old(self).lines@.take(start.line + 1) + old(
                        self,
                    ).lines@.skip(start.line + 1 + (k + 1)));
                }
                k = k + 1;
            }
            self.lines[start.line] = merged;
        }
        self.cursor = start;
        self.selection = None;
        proof {
            assert(self@.lines =~= m.lines);
            assert(self@ =~= m);
        }
        Ok(())
    }

    /// Inserts one character at the cursor, first deleting any active
    /// selection (the cursor then stands at its former start). A newline
    /// splits the current line; a tab inserts exactly four spaces and
    /// advances the cursor by four; any other character is inserted as it is
    /// and advances the cursor by one. Fails with `BufferOverflow`, leaving
    /// the buffer unchanged, exactly when the advanced column would not be
    /// representable.
    pub fn insert_char(&mut self, c: char) -> (r: Result<(), EditError>)
        requires
            old(self)@.wf(),
        ensures
            final(self)@.wf(),
            insert_char_ok(old(self)@, c) ==> r == Ok::<(), EditError>(()) && final(self)@
                == insert_char_m(old(self)@, c),
            !insert_char_ok(old(self)@, c) ==> r == Err::<(), EditError>(
                EditError::BufferOverflow,
            ) && final(self)@ == old(self)@,
    {
        let step: usize = if c == '\t' {
            4
        } else {
            1
        };
        if c != '\n' {
            let target_col = match self.selection {
                Some((s, _)) => s.column,
                None => self.cursor.column,
            };
            if target_col > usize::MAX - step {
                return Err(EditError::BufferOverflow);
            }
        }
        if self.selection.is_some() {
            let res = self.delete_selection();
            proof {
                lemma_delete_selection_wf(old(self)@);
            }
        }
        let ghost b1 = self@;
        assert(b1.wf() && b1.selection is None);
        assert(insert_char_m(old(self)@, c) == insert_at_cursor(b1, c));
        proof {
            lemma_insert_at_cursor_wf(b1, c);
        }
        let li = self.cursor.line;
        let col = self.cursor.column;
        let empty_mid: Vec<char> = Vec::new();
        if c == '\n' {
            let left = concat_parts(&self.lines[li], col, &empty_mid, &empty_mid, 0);
            let right = concat_parts(&empty_mid, 0, &empty_mid, &self.lines[li], col);
            proof {
                assert(left@ =~= b1.lines[li as int].take(col as int));
                assert(right@ =~= b1.lines[li as int].skip(col as int));
            }
            self.lines[li] = left;
            assert(li < self.lines.len());
            self.lines.insert(li + 1, right);
            self.cursor = Position { line: li + 1, column: 0 };
            proof {
                assert(self@.lines =~= insert_at_cursor(b1, c).lines);
                assert(self@ =~= insert_at_cursor(b1, c));
            }
        } else {
            let mut mid: Vec<char> = Vec::new();
            if c == '\t' {
                mid.push(' ');
                mid.push(' ');
                mid.push(' ');
                mid.push(' ');
            } else {
                mid.push(c);
            }
            assert(mid@ =~= expand_one(c));
            let nl = concat_parts(&self.lines[li], col, &mid, &self.lines[li], col);
            self.lines[li] = nl;
            self.cursor = Position { line: li, column: col + step };
            proof {
                assert(self@.lines =~= insert_at_cursor(b1, c).lines);
                assert(self@ =~= insert_at_cursor(b1, c));
            }
        }
        Ok(())
    }

    /// Removes the character immediately before the cursor and steps the
    /// cursor back one column; any selection is cleared. Fails with
    /// `OutOfBounds`, leaving the buffer unchanged, exactly when the cursor
    /// is at the start of its line.
    pub fn delete_char(&mut self) -> (r: Result<(), EditError>)
        requires
            old(self)@.wf(),
        ensures
            final(self)@.wf(),
            delete_char_ok(old(self)@) ==> r == Ok::<(), EditError>(()) && final(self)@
                == delete_char_m(old(self)@),
            !delete_char_ok(old(self)@) ==> r == Err::<(), EditError>(EditError::OutOfBounds)
                && final(self)@ == old(self)@,
    {
        if self.cursor.column == 0 {
            return Err(EditError::OutOfBounds);
        }
        proof {
            lemma_delete_char_wf(old(self)@);
        }
        let li = self.cursor.line;
        let col = self.cursor.column;
        let empty_mid: Vec<char> = Vec::new();
        let nl = concat_parts(&self.lines[li], col - 1, &empty_mid, &self.lines[li], col);
        self.lines[li] = nl;
        self.cursor = Position { line: li, column: col - 1 };
        self.selection = None;
        proof {
            assert(self@.lines =~= delete_char_m(old(self)@).lines);
            assert(self@ =~= delete_char_m(old(self)@));
        }
        Ok(())
    }

    /// Inserts a line break at the cursor, exactly as `insert_char` with a
    /// newline, after a defensive check that one more line is representable;
    /// on that (practically unreachable) limit it fails with
    /// `BufferOverflow` and leaves the buffer unchanged.
    pub fn insert_newline(&mut self) -> (r: Result<(), EditError>)
        requires
            old(self)@.wf(),
        ensures
            final(self)@.wf(),
            old(self)@.lines.len() < usize::MAX ==> r == Ok::<(), EditError>(()) && final(self)@
                == insert_char_m(old(self)@, '\n'),
            old(self)@.lines.len() >= usize::MAX ==> r == Err::<(), EditError>(
                EditError::BufferOverflow,
            ) && final(self)@ == old(self)@,
    {
        if self.lines.len() == usize::MAX {
            return Err(EditError::BufferOverflow);
        }
        self.insert_char('\n')
    }

    /// The whole document as one text: the lines joined by single newlines,
    /// with none added at the end. Never fails.
    pub fn get_text(&self) -> (r: Result<String, EditError>)
        requires
            self@.wf(),
        ensures
            r is Ok,
            match r {
                Ok(s) => s@ == self@.text(),
                Err(_) => false,
            },
    {
        let mut acc: Vec<char> = Vec::new();
        proof {
            assert(self@.lines.take(0) =~= Seq::<Seq<char>>::empty());
        }
        let mut i: usize = 0;
        while i < self.lines.len()
            invariant
                self@.wf(),
                i <= self.lines@.len(),
                acc@ == join_lines(self@.lines.take(i as int)),
            decreases self.lines@.len() - i,
        {
            let ghost pre = acc@;
            if i > 0 {
                acc.push('\n');
            }
            push_range(&mut acc, &self.lines[i], 0, self.lines[i].len());
            proof {
                let ls = self@.lines;
                assert(ls[i as int].subrange(0, ls[i as int].len() as int) =~= ls[i as int]);
                assert(ls.take(i + 1) =~= ls.take(i as int).push(ls[i as int]));
                if i > 0 {
                    lemma_join_push(ls.take(i as int), ls[i as int]);
                    assert(acc@ =~= join_lines(ls.take(i + 1)));
                } else {
                    assert(join_lines(ls.take(1)) == ls.take(1)[0]);
                    assert(acc@ =~= join_lines(ls.take(1)));
                }
            }
            i = i + 1;
        }
        proof {
            assert(self@.lines.take(self.lines@.len() as int) =~= self@.lines);
        }
        Ok(chars_to_string(&acc))
    }

    /// Replaces the whole document: the text is split on newlines, tabs
    /// expand to four spaces, the cursor returns to the origin and the
    /// selection is cleared. Fails with `InvalidText`, leaving the buffer
    /// unchanged, exactly when the text is empty (use `clear` for an empty
    /// document) or holds a control character other than newline, tab and
    /// carriage return.
    pub fn set_text(&mut self, text: String) -> (r: Result<(), EditError>)
        requires
            old(self)@.wf(),
        ensures
            final(self)@.wf(),
            set_text_ok(text@) ==> r == Ok::<(), EditError>(()) && final(self)@ == (BufferModel {
                lines: document_of(text@),
                cursor: Position { line: 0, column: 0 },
                selection: None,
            }),
            !set_text_ok(text@) ==> r == Err::<(), EditError>(EditError::InvalidText)
                && final(self)@ == old(self)@,
    {
        let v = str_to_chars(text.as_str());
        if v.len() == 0 {
            return Err(EditError::InvalidText);
        }
        let mut i: usize = 0;
        while i < v.len()
            invariant
                i <= v@.len(),
                v@ == text@,
                self@ == old(self)@,
                old(self)@.wf(),
                forall|j: int| 0 <= j < i ==> allowed_char(#[trigger] v@[j]),
            decreases v@.len() - i,
        {
            if !is_allowed_char(v[i]) {
                return Err(EditError::InvalidText);
            }
            i = i + 1;
        }
        let mut nlines: Vec<Vec<char>> = Vec::new();
        let mut cur: Vec<char> = Vec::new();
        proof {
            assert(v@.take(0) =~= Seq::<char>::empty());
            assert(expand_tabs(v@.take(0)) == Seq::<char>::empty());
            assert(lines_view(nlines@).push(cur@) =~= split_lines(expand_tabs(v@.take(0))));
        }
        let mut i: usize = 0;
        while i < v.len()
            invariant
                i <= v@.len(),
                v@ == text@,
                self@ == old(self)@,
                old(self)@.wf(),
                lines_view(nlines@).push(cur@) == split_lines(expand_tabs(v@.take(i as int))),
            decreases v@.len() - i,
        {
            let ghost e0 = expand_tabs(v@.take(i as int));
            let ghost s0 = split_lines(e0);
            let c = v[i];
            proof {
                assert(v@.take(i + 1).drop_last() =~= v@.take(i as int));
                assert(v@.take(i + 1).last() == v@[i as int]);
                assert(expand_tabs(v@.take(i + 1)) == e0 + expand_one(c));
                lemma_split_nonempty(e0);
            }
            if c == '\n' {
                proof {
                    assert(e0 + expand_one(c) =~= e0.push('\n'));
                    assert((e0.push('\n')).drop_last() =~= e0);
                    assert(split_lines(e0.push('\n')) == s0.push(Seq::<char>::empty()));
                }
                nlines.push(cur);
                cur = Vec::new();
                proof {
                    assert(lines_view(nlines@).push(cur@) =~= split_lines(
                        expand_tabs(v@.take(i + 1)),
                    ));
                }
            } else {
                proof {
                    lemma_split_append_no_newline(e0, expand_one(c));
                }
                if c == '\t' {
                    cur.push(' ');
                    cur.push(' ');
                    cur.push(' ');
                    cur.push(' ');
                } else {
                    cur.push(c);
                }
                proof {
                    assert(cur@ =~= s0.last() + expand_one(c));
                    assert(lines_view(nlines@).push(cur@) =~= split_lines(
                        expand_tabs(v@.take(i + 1)),
                    ));
                }
            }
            i = i + 1;
        }
        nlines.push(cur);
        proof {
            assert(v@.take(v@.len() as int) =~= v@);
            assert(lines_view(nlines@) =~= document_of(text@));
            lemma_document_wf(text@);
        }
        self.lines = nlines;
        self.cursor = Position { line: 0, column: 0 };
        self.selection = None;
        proof {
            assert(self@ =~= (BufferModel {
                lines: document_of(text@),
                cursor: Position { line: 0, column: 0 },
                selection: None,
            }));
        }
        Ok(())
    }

    /// Inserts every character of the text in order at the cursor, exactly
    /// as repeated `insert_char` calls: embedded newlines split lines and
    /// tabs expand to four spaces. An empty text is a no-op. Fails with
    /// `InvalidText`, leaving the buffer unchanged, exactly when the text
    /// holds a control character other than newline, tab and carriage
    /// return; at the (practically unreachable) representability limit it
    /// stops where the failing insertion left off.
    pub fn insert_text(&mut self, text: String) -> (r: Result<(), EditError>)
        requires
            old(self)@.wf(),
        ensures
            final(self)@.wf(),
            text@.len() == 0 ==> r == Ok::<(), EditError>(()) && final(self)@ == old(self)@,
            text@.len() > 0 && !text_allowed(text@) ==> r == Err::<(), EditError>(
                EditError::InvalidText,
            ) && final(self)@ == old(self)@,
            text@.len() > 0 && text_allowed(text@) ==> final(self)@ == insert_text_run(
                old(self)@,
                text@,
            ).0 && r == insert_text_run(old(self)@, text@).1,
    {
        let v = str_to_chars(text.as_str());
        if v.len() == 0 {
            return Ok(());
        }
        let mut i: usize = 0;
        while i < v.len()
            invariant
                i <= v@.len(),
                v@ == text@,
                self@ == old(self)@,
                old(self)@.wf(),
                forall|j: int| 0 <= j < i ==> allowed_char(#[trigger] v@[j]),
            decreases v@.len() - i,
        {
            if !is_allowed_char(v[i]) {
                return Err(EditError::InvalidText);
            }
            i = i + 1;
        }
        proof {
            assert(v@.skip(0) =~= v@);
        }
        let mut i: usize = 0;
        while i < v.len()
            invariant
                i <= v@.len(),
                v@ == text@,
                v@.len() > 0,
                text_allowed(v@),
                self@.wf(),
                old(self)@.wf(),
                insert_text_run(old(self)@, v@) == insert_text_run(self@, v@.skip(i as int)),
            decreases v@.len() - i,
        {
            let ghost pre = self@;
            let ghost rest = v@.skip(i as int);
            proof {
                assert(rest.len() > 0);
                assert(rest[0] == v@[i as int]);
                assert(rest.drop_first() =~= v@.skip(i + 1));
            }
            let res = self.insert_char(v[i]);
            match res {
                Ok(_) => {
                    proof {
                        assert(insert_text_run(pre, rest) == insert_text_run(
                            self@,
                            v@.skip(i + 1),
                        ));
                    }
                },
                Err(e) => {
                    proof {
                        assert(insert_text_run(pre, rest) == (pre, Err::<(), EditError>(
                            EditError::BufferOverflow,
                        )));
                    }
                    return Err(e);
                },
            }
            i = i + 1;
        }
        proof {
            assert(v@.skip(v@.len() as int).len() == 0);
        }
        Ok(())
    }

    /// The text between the two positions, read-only: the single substring
    /// within one line, or the spanned line parts joined by newlines. Fails
    /// with `OutOfBounds`, leaving the buffer unchanged, exactly when either
    /// position is invalid or the start comes after the end in document
    /// order.
    pub fn get_text_in_range(&self, start: Position, end: Position) -> (r: Result<
        String,
        EditError,
    >)
        requires
            self@.wf(),
        ensures
            range_ok(self@, start, end) ==> match r {
                Ok(s) => s@ == range_text(self@, start, end),
                Err(_) => false,
            },
            !range_ok(self@, start, end) ==> r == Err::<String, EditError>(EditError::OutOfBounds),
    {
        if start.line >= self.lines.len() || end.line >= self.lines.len() {
            return Err(EditError::OutOfBounds);
        }
        if start.column > self.lines[start.line].len() {
            return Err(EditError::OutOfBounds);
        }
        if end.column > self.lines[end.line].len() {
            return Err(EditError::OutOfBounds);
        }
        if !(start.line < end.line || (start.line == end.line && start.column <= end.column)) {
            return Err(EditError::OutOfBounds);
        }
        let ghost rl = range_lines(self@, start, end);
        let mut acc: Vec<char> = Vec::new();
        if start.line == end.line {
            push_range(&mut acc, &self.lines[start.line], start.column, end.column);
            proof {
                assert(join_lines(rl) == rl[0]);
                assert(acc@ =~= range_text(self@, start, end));
            }
            return Ok(chars_to_string(&acc));
        }
        push_range(
            &mut acc,
            &self.lines[start.line],
            start.column,
            self.lines[start.line].len(),
        );
        acc.push('\n');
        proof {
            let first = self@.lines[start.line as int];
            assert(rl[0] =~= first.subrange(start.column as int, first.len() as int));
            assert(rl.take(1) =~= seq![rl[0]]);
            assert(join_lines(rl.take(1)) == rl.take(1)[0]);
            assert(acc@ =~= join_lines(rl.take(1)) + seq!['\n']);
        }
        let mut i: usize = start.line + 1;
        while i < end.line
            invariant
                self@.wf(),
                range_ok(self@, start, end),
                start.line < i <= end.line < self@.lines.len(),
                rl == range_lines(self@, start, end),
                acc@ == join_lines(rl.take(i - start.line)) + seq!['\n'],
            decreases end.line - i,
        {
            let ghost p = i - start.line;
            push_range(&mut acc, &self.lines[i], 0, self.lines[i].len());
            acc.push('\n');
            proof {
                let l = self@.lines[i as int];
                assert(rl[p] == l);
                assert(l.subrange(0, l.len() as int) =~= l);
                assert(rl.take(p + 1) =~= rl.take(p).push(rl[p]));
                lemma_join_push(rl.take(p), rl[p]);
                assert(acc@ =~= join_lines(rl.take(p + 1)) + seq!['\n']);
            }
            i = i + 1;
        }
        let ghost p = end.line - start.line;
        push_range(&mut acc, &self.lines[end.line], 0, end.column);
        proof {
            let l = self@.lines[end.line as int];
            assert(rl[p] =~= l.subrange(0, end.column as int));
            assert(rl.take(p + 1) =~= rl.take(p).push(rl[p]));
            lemma_join_push(rl.take(p), rl[p]);
            assert(rl.take(p + 1) =~= rl);
            assert(acc@ =~= range_text(self@, start, end));
        }
        Ok(chars_to_string(&acc))
    }

    /// An owned copy of the whole line store.
    pub fn copy_lines(&self) -> (r: Vec<Vec<char>>)
        ensures
            lines_view(r@) == self@.lines,
    {
        let mut r: Vec<Vec<char>> = Vec::new();
        proof {
            assert(lines_view(r@) =~= self@.lines.take(0));
        }
        let mut i: usize = 0;
        while i < self.lines.len()
            invariant
                i <= self.lines@.len(),
                lines_view(r@) == self@.lines.take(i as int),
            decreases self.lines@.len() - i,
        {
            let mut line: Vec<char> = Vec::new();
            push_range(&mut line, &self.lines[i], 0, self.lines[i].len());
            proof {
                assert(line@ =~= self@.lines[i as int]);
            }
            let ghost pre = r@;
            r.push(line);
            proof {
                assert(r@ == pre.push(line));
                assert(lines_view(pre).len() == pre.len());
                assert(pre.len() == i);
                assert forall|j: int| 0 <= j < i + 1 implies lines_view(r@)[j]
                    == self@.lines.take(i + 1)[j] by {
                    assert(lines_view(r@)[j] == r@[j]@);
                    if j < i {
                        assert(r@[j] == pre[j]);
                        assert(lines_view(pre)[j] == pre[j]@);
                    }
                }
                assert(lines_view(r@) =~= self@.lines.take(i + 1));
            }
            i = i + 1;
        }
        proof {
            assert(self@.lines.take(self.lines@.len() as int) =~= self@.lines);
        }
        r
    }

    /// Installs the given parts as the whole buffer state.
    pub(crate) fn restore_parts(
        &mut self,
        lines: Vec<Vec<char>>,
        cursor: Position,
        selection: Option<(Position, Position)>,
    )
        ensures
            final(self)@ == (BufferModel { lines: lines_view(lines@), cursor, selection }),
    {
        self.lines = lines;
        self.cursor = cursor;
        self.selection = selection;
    }

    /// The current cursor position.
    pub fn get_cursor_position(&self) -> (p: Position)
        ensures
            p == self@.cursor,
    {
        self.cursor
    }

    /// The whole line store.
    pub fn get_all_lines(&self) -> (r: &Vec<Vec<char>>)
        ensures
            lines_view(r@) == self@.lines,
    {
        &self.lines
    }

    /// The line the cursor stands on, as an owned string.
    pub fn get_current_line(&self) -> (r: String)
        requires
            self@.wf(),
        ensures
            r@ == self@.lines[self@.cursor.line as int],
    {
        chars_to_string(&self.lines[self.cursor.line])
    }

    /// Moves the cursor. Fails with `OutOfBounds`, leaving the buffer
    /// unchanged, exactly when the position does not address an existing line
    /// and a column within it; on success only the cursor changes.
    pub fn set_cursor_position(&mut self, pos: Position) -> (r: Result<(), EditError>)
        requires
            old(self)@.wf(),
        ensures
            final(self)@.wf(),
            old(self)@.valid_pos(pos) ==> r == Ok::<(), EditError>(()) && final(self)@
                == (BufferModel { cursor: pos, ..old(self)@ }),
            !old(self)@.valid_pos(pos) ==> r == Err::<(), EditError>(EditError::OutOfBounds)
                && final(self)@ == old(self)@,
    {
        if pos.line >= self.lines.len() {
            return Err(EditError::OutOfBounds);
        }
        if pos.column > self.lines[pos.line].len() {
            return Err(EditError::OutOfBounds);
        }
        self.cursor = pos;
        Ok(())
    }

    /// Sets the selection to the range between the two positions, normalized
    /// so that the stored start is not after the stored end in document
    /// order. Fails with `OutOfBounds`, leaving the buffer unchanged, exactly
    /// when either position is invalid.
    pub fn set_selection(&mut self, start: Position, end: Position) -> (r: Result<(), EditError>)
        requires
            old(self)@.wf(),
        ensures
            final(self)@.wf(),
            old(self)@.valid_pos(start) && old(self)@.valid_pos(end) ==> r == Ok::<(), EditError>(())
                && final(self)@ == (BufferModel {
                    selection: if pos_le(start, end) {
                        Some((start, end))
                    } else {
                        Some((end, start))
                    },
                    ..old(self)@
                }),
            !(old(self)@.valid_pos(start) && old(self)@.valid_pos(end)) ==> r == Err::<(), EditError>(
                EditError::OutOfBounds,
            ) && final(self)@ == old(self)@,
    {
        if start.line >= self.lines.len() || end.line >= self.lines.len() {
            return Err(EditError::OutOfBounds);
        }
        if start.column > self.lines[start.line].len() {
            return Err(EditError::OutOfBounds);
        }
        if end.column > self.lines[end.line].len() {
            return Err(EditError::OutOfBounds);
        }
        if start.line < end.line || (start.line == end.line && start.column <= end.column) {
            self.selection = Some((start, end));
        } else {
            self.selection = Some((end, start));
        }
        Ok(())
    }

    /// The current selection, if any.
    pub fn get_selection(&self) -> (r: Option<(Position, Position)>)
        ensures
            r == self@.selection,
    {
        self.selection
    }

    /// Drops the selection. Never fails.
    pub fn clear_selection(&mut self) -> (r: Result<(), EditError>)
        requires
            old(self)@.wf(),
        ensures
            final(self)@.wf(),
            r == Ok::<(), EditError>(()),
            final(self)@ == (BufferModel { selection: None, ..old(self)@ }),
    {
        self.selection = None;
        Ok(())
    }

    /// Resets the buffer to its initial state: one empty line, cursor at the
    /// origin, no selection. Never fails.
    pub fn clear(&mut self) -> (r: Result<(), EditError>)
        ensures
            final(self)@.wf(),
            r == Ok::<(), EditError>(()),
            final(self)@ == empty_buffer(),
    {
        self.lines = Vec::new();
        self.lines.push(Vec::new());
        self.cursor = Position { line: 0, column: 0 };
        self.selection = None;
        proof {
            assert(self@.lines =~= empty_buffer().lines);
            assert(self@ =~= empty_buffer());
        }
        Ok(())
    }

    /// Appends one line at the end of the store. Fails with `InvalidText`,
    /// leaving the buffer unchanged, exactly when the line holds a newline or
    /// a tab, which a stored line may never contain.
    pub fn append_line(&mut self, line: String) -> (r: Result<(), EditError>)
        requires
            old(self)@.wf(),
        ensures
            final(self)@.wf(),
            line_ok(line@) ==> r == Ok::<(), EditError>(()) && final(self)@ == (BufferModel {
                lines: old(self)@.lines.push(line@),
                ..old(self)@
            }),
            !line_ok(line@) ==> r == Err::<(), EditError>(EditError::InvalidText) && final(self)@
                == old(self)@,
    {
        let v = str_to_chars(line.as_str());
        let mut i: usize = 0;
        while i < v.len()
            invariant
                i <= v@.len(),
                v@ == line@,
                self@ == old(self)@,
                old(self)@.wf(),
                forall|j: int| 0 <= j < i ==> #[trigger] v@[j] != '\n' && v@[j] != '\t',
            decreases v@.len() - i,
        {
            if v[i] == '\n' || v[i] == '\t' {
                return Err(EditError::InvalidText);
            }
            i = i + 1;
        }
        self.lines.push(v);
        proof {
            assert(self@.lines =~= old(self)@.lines.push(line@));
            assert(self@ =~= (BufferModel { lines: old(self)@.lines.push(line@), ..old(self)@ }));
        }
        Ok(())
    }
}

} // verus!
