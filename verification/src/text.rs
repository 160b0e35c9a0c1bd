//! The mathematical model of document text: which characters a document may
//! hold, how a flat text is split into lines and joined back, and how tab
//! characters expand to spaces.

use vstd::prelude::*;
use vstd::string::StrSliceExecFns;

verus! {

/// A character of the Unicode `Cc` category: `U+0000..=U+001F` and
/// `U+007F..=U+009F`.
pub open spec fn spec_is_control(c: char) -> bool {
    (c as u32) < 0x20 || (0x7f <= (c as u32) && (c as u32) <= 0x9f)
}

/// A character a document may hold: anything that is not a control
/// character, plus newline, tab and carriage return.
pub open spec fn allowed_char(c: char) -> bool {
    !spec_is_control(c) || c == '\n' || c == '\t' || c == '\r'
}

/// Every character of the text is allowed.
pub open spec fn text_allowed(t: Seq<char>) -> bool {
    forall|i: int| 0 <= i < t.len() ==> allowed_char(#[trigger] t[i])
}

/// A stored line never holds a newline (lines are separated, not embedded)
/// nor a tab (tabs are expanded to spaces on insertion).
pub open spec fn line_ok(l: Seq<char>) -> bool {
    forall|i: int| 0 <= i < l.len() ==> #[trigger] l[i] != '\n' && l[i] != '\t'
}

/// Runtime check matching `spec_is_control`.
pub fn is_control_char(c: char) -> (r: bool)
    ensures
        r == spec_is_control(c),
{
    let u = c as u32;
    u < 0x20 || (0x7f <= u && u <= 0x9f)
}

/// Runtime check matching `allowed_char`.
pub fn is_allowed_char(c: char) -> (r: bool)
    ensures
        r == allowed_char(c),
{
    !is_control_char(c) || c == '\n' || c == '\t' || c == '\r'
}

/// Relies on `String::push`: appends exactly the one given character at the
/// end of the string.
#[verifier::external_body]
fn push_char(s: &mut String, c: char)
    ensures
        final(s)@ == old(s)@.push(c),
{
    s.push(c);
}

/// Builds the `String` whose characters are exactly those of `v`, in order.
pub fn chars_to_string(v: &Vec<char>) -> (s: String)
    ensures
        s@ == v@,
{
    let mut s = String::new();
    let mut i: usize = 0;
    while i < v.len()
        invariant
            i <= v@.len(),
            s@ == v@.take(i as int),
        decreases v@.len() - i,
    {
        push_char(&mut s, v[i]);
        assert(v@.take(i + 1) =~= v@.take(i as int).push(v@[i as int]));
        i = i + 1;
    }
    assert(v@.take(v@.len() as int) =~= v@);
    s
}

/// Collects the characters of `s`, in order, into a vector.
pub fn str_to_chars(s: &str) -> (v: Vec<char>)
    ensures
        v@ == s@,
{
    let n = s.unicode_len();
    let mut v: Vec<char> = Vec::new();
    let mut i: usize = 0;
    while i < n
        invariant
            n == s@.len(),
            i <= n,
            v@ == s@.take(i as int),
        decreases n - i,
    {
        let c = s.get_char(i);
        v.push(c);
        assert(s@.take(i + 1) =~= s@.take(i as int).push(s@[i as int]));
        i = i + 1;
    }
    assert(s@.take(n as int) =~= s@);
    v
}

/// What one typed character contributes to the document: a tab becomes four
/// spaces, every other character stands for itself.
pub open spec fn expand_one(c: char) -> Seq<char> {
    if c == '\t' {
        seq![' ', ' ', ' ', ' ']
    } else {
        seq![c]
    }
}

/// Tab expansion over a whole text: each tab becomes four spaces, all other
/// characters (newlines included) are kept in place.
pub open spec fn expand_tabs(t: Seq<char>) -> Seq<char>
    decreases t.len(),
{
    if t.len() == 0 {
        Seq::empty()
    } else {
        expand_tabs(t.drop_last()) + expand_one(t.last())
    }
}

/// Splitting a text on newlines. The empty text is one empty line; a final
/// newline opens a new empty line; any other character extends the last line.
pub open spec fn split_lines(t: Seq<char>) -> Seq<Seq<char>>
    decreases t.len(),
{
    if t.len() == 0 {
        seq![Seq::<char>::empty()]
    } else if t.last() == '\n' {
        split_lines(t.drop_last()).push(Seq::empty())
    } else {
        let s = split_lines(t.drop_last());
        s.update(s.len() - 1, s.last().push(t.last()))
    }
}

/// Joining lines with a single newline between neighbours, none at the end.
pub open spec fn join_lines(ls: Seq<Seq<char>>) -> Seq<char>
    decreases ls.len(),
{
    if ls.len() == 0 {
        Seq::empty()
    } else if ls.len() == 1 {
        ls[0]
    } else {
        join_lines(ls.drop_last()) + seq!['\n'] + ls.last()
    }
}

/// The line store a text becomes when it is loaded: split on newlines, tabs
/// expanded to four spaces.
pub open spec fn document_of(t: Seq<char>) -> Seq<Seq<char>> {
    split_lines(expand_tabs(t))
}

/// Splitting always yields at least one line.
pub proof fn lemma_split_nonempty(t: Seq<char>)
    ensures
        split_lines(t).len() >= 1,
    decreases t.len(),
{
    if t.len() != 0 {
        lemma_split_nonempty(t.drop_last());
    }
}

/// Every line produced by splitting is free of newlines and, if the text has
/// no tabs, free of tabs; in particular the lines of `document_of` are valid
/// stored lines.
pub proof fn lemma_split_lines_ok(t: Seq<char>)
    requires
        forall|i: int| 0 <= i < t.len() ==> #[trigger] t[i] != '\t',
    ensures
        forall|i: int|
            0 <= i < split_lines(t).len() ==> line_ok(#[trigger] split_lines(t)[i]),
    decreases t.len(),
{
    if t.len() == 0 {
    } else {
        lemma_split_nonempty(t.drop_last());
        assert(forall|i: int| 0 <= i < t.drop_last().len() ==> #[trigger] t.drop_last()[i] != '\t');
        lemma_split_lines_ok(t.drop_last());
        let s = split_lines(t.drop_last());
        if t.last() == '\n' {
            assert(line_ok(Seq::<char>::empty()));
        } else {
            let nl = s.last().push(t.last());
            assert(line_ok(nl)) by {
                assert(forall|i: int|
                    0 <= i < nl.len() - 1 ==> #[trigger] nl[i] == s.last()[i]);
            }
        }
    }
}

/// Expansion never produces a tab, and keeps newlines exactly where the
/// original characters put them.
pub proof fn lemma_expand_tabs_no_tab(t: Seq<char>)
    ensures
        forall|i: int| 0 <= i < expand_tabs(t).len() ==> #[trigger] expand_tabs(t)[i] != '\t',
    decreases t.len(),
{
    if t.len() != 0 {
        lemma_expand_tabs_no_tab(t.drop_last());
        let e = expand_tabs(t.drop_last());
        let eo = expand_one(t.last());
        assert(forall|i: int| 0 <= i < eo.len() ==> #[trigger] eo[i] != '\t');
        assert(forall|i: int|
            0 <= i < expand_tabs(t).len() ==> #[trigger] expand_tabs(t)[i] == if i < e.len() {
                e[i]
            } else {
                eo[i - e.len()]
            });
    }
}

/// A text without tabs expands to itself.
pub proof fn lemma_expand_tabs_id(t: Seq<char>)
    requires
        forall|i: int| 0 <= i < t.len() ==> #[trigger] t[i] != '\t',
    ensures
        expand_tabs(t) == t,
    decreases t.len(),
{
    if t.len() == 0 {
        assert(expand_tabs(t) =~= t);
    } else {
        assert(forall|i: int| 0 <= i < t.drop_last().len() ==> #[trigger] t.drop_last()[i] != '\t');
        lemma_expand_tabs_id(t.drop_last());
        assert(expand_tabs(t) =~= t);
    }
}

/// Appending newline-free characters to a text extends its last line by
/// exactly those characters.
pub proof fn lemma_split_append_no_newline(t: Seq<char>, u: Seq<char>)
    requires
        forall|i: int| 0 <= i < u.len() ==> #[trigger] u[i] != '\n',
    ensures
        split_lines(t + u) == split_lines(t).update(
            split_lines(t).len() - 1,
            split_lines(t).last() + u,
        ),
    decreases u.len(),
{
    lemma_split_nonempty(t);
    let s = split_lines(t);
    if u.len() == 0 {
        assert(t + u =~= t);
        assert(s.last() + u =~= s.last());
        assert(s.update(s.len() - 1, s.last() + u) =~= s);
    } else {
        let u0 = u.drop_last();
        assert(forall|i: int| 0 <= i < u0.len() ==> #[trigger] u0[i] != '\n');
        lemma_split_append_no_newline(t, u0);
        let s1 = split_lines(t + u0);
        assert((t + u).drop_last() =~= t + u0);
        assert((t + u).last() == u.last());
        assert((t + u).len() != 0);
        assert(split_lines(t + u) == s1.update(s1.len() - 1, s1.last().push(u.last())));
        assert(s1.len() == s.len());
        assert(s1.last() == s.last() + u0);
        assert((s.last() + u0).push(u.last()) =~= s.last() + u);
        assert(s1.update(s1.len() - 1, s1.last().push(u.last())) =~= s.update(
            s.len() - 1,
            s.last() + u,
        ));
    }
}

/// The lines a loaded text becomes satisfy every per-line condition a stored
/// line must: there is at least one, and none holds a newline or a tab.
pub proof fn lemma_document_wf(t: Seq<char>)
    ensures
        document_of(t).len() >= 1,
        forall|i: int| 0 <= i < document_of(t).len() ==> line_ok(#[trigger] document_of(t)[i]),
{
    lemma_split_nonempty(expand_tabs(t));
    lemma_expand_tabs_no_tab(t);
    lemma_split_lines_ok(expand_tabs(t));
}

/// Joining undoes splitting: the document reconstructed line for line gives
/// back exactly the text it was split from.
pub proof fn lemma_join_split(t: Seq<char>)
    ensures
        join_lines(split_lines(t)) == t,
    decreases t.len(),
{
    if t.len() == 0 {
        assert(join_lines(split_lines(t)) =~= t);
    } else {
        lemma_join_split(t.drop_last());
        lemma_split_nonempty(t.drop_last());
        let s = split_lines(t.drop_last());
        if t.last() == '\n' {
            lemma_join_push(s, Seq::empty());
            assert(join_lines(split_lines(t)) =~= t);
        } else {
            lemma_join_update_last(s, t.last());
            assert(join_lines(split_lines(t)) =~= t);
        }
    }
}

/// Law: loading a text and reading the document back yields the text with
/// its tabs expanded to four spaces — and the text itself when it had no
/// tabs. `set_text` stores `document_of` the text and `get_text` returns the
/// stored lines joined by newlines, so the two compose to exactly this
/// statement.
pub proof fn lemma_set_get_round_trip(t: Seq<char>)
    ensures
        join_lines(document_of(t)) == expand_tabs(t),
        (forall|i: int| 0 <= i < t.len() ==> #[trigger] t[i] != '\t') ==> join_lines(
            document_of(t),
        ) == t,
{
    lemma_join_split(expand_tabs(t));
    if forall|i: int| 0 <= i < t.len() ==> #[trigger] t[i] != '\t' {
        lemma_expand_tabs_id(t);
    }
}

/// Appending one more line to a non-empty store appends a newline and that
/// line to the joined text.
pub proof fn lemma_join_push(ls: Seq<Seq<char>>, l: Seq<char>)
    requires
        ls.len() >= 1,
    ensures
        join_lines(ls.push(l)) == join_lines(ls) + seq!['\n'] + l,
{
    assert(ls.push(l).drop_last() =~= ls);
    assert(ls.push(l).last() =~= l);
    if ls.len() == 1 {
        assert(join_lines(ls.push(l)) =~= join_lines(ls) + seq!['\n'] + l);
    }
}

/// Joining distributes over concatenation of non-empty stores, with one
/// newline at the seam.
pub proof fn lemma_join_append(a: Seq<Seq<char>>, b: Seq<Seq<char>>)
    requires
        a.len() >= 1,
        b.len() >= 1,
    ensures
        join_lines(a + b) == join_lines(a) + seq!['\n'] + join_lines(b),
    decreases b.len(),
{
    if b.len() == 1 {
        assert((a + b).drop_last() =~= a);
        assert((a + b).last() == b[0]);
        assert((a + b).len() == a.len() + 1 >= 2);
        assert(join_lines(b) == b[0]);
    } else {
        lemma_join_append(a, b.drop_last());
        assert((a + b).drop_last() =~= a + b.drop_last());
        assert((a + b).last() == b.last());
        assert(join_lines(a + b) == join_lines(a + b.drop_last()) + seq!['\n'] + b.last());
        assert(join_lines(a) + seq!['\n'] + join_lines(b.drop_last()) + seq!['\n'] + b.last()
            =~= join_lines(a) + seq!['\n'] + (join_lines(b.drop_last()) + seq!['\n'] + b.last()));
    }
}

/// The first character of each expanded text element in order: expansion
/// seen from the front rather than the back.
pub proof fn lemma_expand_head(t: Seq<char>)
    requires
        t.len() >= 1,
    ensures
        expand_tabs(t) == expand_one(t[0]) + expand_tabs(t.drop_first()),
    decreases t.len(),
{
    if t.len() == 1 {
        assert(t.drop_first().len() == 0);
        assert(t.drop_last().len() == 0);
        assert(expand_tabs(t) == expand_tabs(t.drop_last()) + expand_one(t.last()));
        assert(expand_tabs(t) =~= expand_one(t[0]) + expand_tabs(t.drop_first()));
    } else {
        lemma_expand_head(t.drop_last());
        assert(t.drop_last()[0] == t[0]);
        assert(t.drop_last().drop_first() =~= t.drop_first().drop_last());
        assert(t.drop_first().last() == t.last());
        assert(expand_tabs(t) == expand_tabs(t.drop_last()) + expand_one(t.last()));
        assert(expand_tabs(t.drop_first()) == expand_tabs(t.drop_first().drop_last())
            + expand_one(t.last()));
        assert(expand_tabs(t) =~= expand_one(t[0]) + expand_tabs(t.drop_first()));
    }
}

/// A text joined from tab-free lines holds no tab.
pub proof fn lemma_join_no_tab(ls: Seq<Seq<char>>)
    requires
        forall|i: int| 0 <= i < ls.len() ==> line_ok(#[trigger] ls[i]),
    ensures
        forall|i: int| 0 <= i < join_lines(ls).len() ==> #[trigger] join_lines(ls)[i] != '\t',
    decreases ls.len(),
{
    if ls.len() == 0 {
    } else if ls.len() == 1 {
        assert(join_lines(ls) == ls[0]);
        assert(line_ok(ls[0]));
    } else {
        assert(forall|i: int|
            0 <= i < ls.drop_last().len() ==> line_ok(#[trigger] ls.drop_last()[i]));
        lemma_join_no_tab(ls.drop_last());
        let j0 = join_lines(ls.drop_last());
        let l = ls.last();
        assert(line_ok(l));
        assert(forall|i: int|
            0 <= i < join_lines(ls).len() ==> #[trigger] join_lines(ls)[i] == if i < j0.len() {
                j0[i]
            } else if i == j0.len() {
                '\n'
            } else {
                l[i - j0.len() - 1]
            });
    }
}

/// Extending the last line of a store extends the joined text by the same
/// character.
pub proof fn lemma_join_update_last(ls: Seq<Seq<char>>, c: char)
    requires
        ls.len() >= 1,
    ensures
        join_lines(ls.update(ls.len() - 1, ls.last().push(c))) == join_lines(ls).push(c),
    decreases ls.len(),
{
    let u = ls.update(ls.len() - 1, ls.last().push(c));
    if ls.len() == 1 {
        assert(u[0] =~= ls[0].push(c));
        assert(join_lines(u) =~= join_lines(ls).push(c));
    } else {
        assert(u.drop_last() =~= ls.drop_last());
        assert(u.last() =~= ls.last().push(c));
        assert(join_lines(u) =~= join_lines(ls).push(c));
    }
}

} // verus!
