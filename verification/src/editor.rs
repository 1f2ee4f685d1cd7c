//! A line-based text editor for a terminal: lines, a cursor and a scroll position.
//!
//! The cursor column is a byte offset into the cursor's line, while typing advances it
//! by one per character; operations that cut a line at the column require that it falls
//! between two characters.
use vstd::prelude::*;
use crate::find_replace::{char_index_at, char_index_for_byte, is_boundary, lemma_char_index_at};
use crate::text::{
    all_ascii, byte_len, byte_len_of_range, byte_offset, chars_of, extend_range, join_lines, lemma_byte_offset_mono,
    lemma_join_push, lemma_split_join, split_lines, split_lines_exec, string_of, string_of_range,
};

verus! {

/// The editor as plain values: its lines, cursor row, cursor column (a byte offset) and
/// scroll offset.
pub type EditorView = (Seq<Seq<char>>, int, int, int);

/// A terminal editor.
pub struct Editor {
    lines: Vec<String>,
    cursor_row: usize,
    cursor_col: usize,
    pub scroll_offset: usize,
}

/// A key press, as the editor reads it.
#[derive(Clone, Copy, Debug)]
pub enum EditorKey {
    /// A character typed without a modifier other than Shift.
    Char(char),
    Enter,
    Backspace,
    Delete,
    Left,
    Right,
    Up,
    Down,
    Home,
    End,
    /// Ctrl+Home: to the start of the text.
    CtrlHome,
    /// Ctrl+End: to the end of the text.
    CtrlEnd,
    Tab,
    /// Any other key: ignored.
    Other,
}

/// Lines of text seen as character sequences.
pub open spec fn lines_view(v: Seq<String>) -> Seq<Seq<char>> {
    v.map_values(|s: String| s@)
}

/// The cursor is on one of the lines, at a column no further than the line's end.
pub open spec fn cursor_in_line(v: EditorView) -> bool {
    &&& v.0.len() >= 1
    &&& 0 <= v.1 < v.0.len()
    &&& 0 <= v.2 <= byte_len(v.0[v.1])
}

impl View for Editor {
    type V = EditorView;

    closed spec fn view(&self) -> EditorView {
        (
            lines_view(self.lines@),
            self.cursor_row as int,
            self.cursor_col as int,
            self.scroll_offset as int,
        )
    }
}

impl Editor {
    /// There is at least one line and the cursor is on one.
    spec fn shaped(&self) -> bool {
        self.lines@.len() >= 1 && self.cursor_row < self.lines@.len()
    }

    /// The editor's invariant: there is at least one line, the cursor is on one, and its
    /// column lies within that line.
    pub closed spec fn wf(&self) -> bool {
        self.shaped() && cursor_in_line(self@)
    }

    pub proof fn lemma_wf(&self)
        requires
            self.wf(),
        ensures
            cursor_in_line(self@),
            0 <= self@.2 <= usize::MAX,
            0 <= self@.3 <= usize::MAX,
    {
    }
}

/// The text of a line with a character inserted at byte offset `col`.
pub open spec fn with_char(line: Seq<char>, col: int, c: char) -> Seq<char> {
    let k = char_index_at(line, col);
    line.take(k).push(c) + line.skip(k)
}

/// The text of a line without the character that starts at byte offset `col`.
pub open spec fn without_char(line: Seq<char>, col: int) -> Seq<char> {
    let k = char_index_at(line, col);
    line.take(k) + line.skip(k + 1)
}

/// A character starts at byte offset `col` of `line`.
pub open spec fn char_starts_at(line: Seq<char>, col: int) -> bool {
    is_boundary(line, col) && col < byte_len(line)
}

/// The state after typing `c`.
pub open spec fn typed(v: EditorView, c: char) -> EditorView {
    (v.0.update(v.1, with_char(v.0[v.1], v.2, c)), v.1, v.2 + 1, v.3)
}

/// The state after Enter: the line is cut at the cursor and the cursor starts the new line.
pub open spec fn broken(v: EditorView) -> EditorView {
    let line = v.0[v.1];
    let k = char_index_at(line, v.2);
    (v.0.update(v.1, line.take(k)).insert(v.1 + 1, line.skip(k)), v.1 + 1, 0, v.3)
}

/// The state after Backspace.
pub open spec fn backspaced(v: EditorView) -> EditorView {
    if v.2 > 0 {
        (v.0.update(v.1, without_char(v.0[v.1], v.2 - 1)), v.1, v.2 - 1, v.3)
    } else if v.1 > 0 {
        let prev = v.0[v.1 - 1];
        (v.0.remove(v.1).update(v.1 - 1, prev + v.0[v.1]), v.1 - 1, byte_len(prev) as int, v.3)
    } else {
        v
    }
}

/// The state after Delete.
pub open spec fn deleted(v: EditorView) -> EditorView {
    if v.2 < byte_len(v.0[v.1]) {
        (v.0.update(v.1, without_char(v.0[v.1], v.2)), v.1, v.2, v.3)
    } else if v.1 + 1 < v.0.len() {
        (v.0.remove(v.1 + 1).update(v.1, v.0[v.1] + v.0[v.1 + 1]), v.1, v.2, v.3)
    } else {
        v
    }
}

/// The state after a key press.
pub open spec fn key_spec(v: EditorView, key: EditorKey) -> EditorView {
    match key {
        EditorKey::Char(c) => typed(v, c),
        EditorKey::Enter => broken(v),
        EditorKey::Backspace => backspaced(v),
        EditorKey::Delete => deleted(v),
        EditorKey::Left => if v.2 > 0 {
            (v.0, v.1, v.2 - 1, v.3)
        } else if v.1 > 0 {
            (v.0, v.1 - 1, byte_len(v.0[v.1 - 1]) as int, v.3)
        } else {
            v
        },
        EditorKey::Right => if v.2 < byte_len(v.0[v.1]) {
            (v.0, v.1, v.2 + 1, v.3)
        } else if v.1 + 1 < v.0.len() {
            (v.0, v.1 + 1, 0, v.3)
        } else {
            v
        },
        EditorKey::Up => if v.1 > 0 {
            let r = v.1 - 1;
            let c = if v.2 < byte_len(v.0[r]) { v.2 } else { byte_len(v.0[r]) as int };
            (v.0, r, c, if r < v.3 { r } else { v.3 })
        } else {
            v
        },
        EditorKey::Down => if v.1 + 1 < v.0.len() {
            let r = v.1 + 1;
            let c = if v.2 < byte_len(v.0[r]) { v.2 } else { byte_len(v.0[r]) as int };
            (v.0, r, c, v.3)
        } else {
            v
        },
        EditorKey::Home => (v.0, v.1, 0, v.3),
        EditorKey::End => (v.0, v.1, byte_len(v.0[v.1]) as int, v.3),
        EditorKey::CtrlHome => (v.0, 0, 0, 0),
        EditorKey::CtrlEnd => (v.0, v.0.len() - 1, byte_len(v.0[v.0.len() - 1]) as int, v.3),
        EditorKey::Tab => typed(typed(typed(typed(v, ' '), ' '), ' '), ' '),
        EditorKey::Other => v,
    }
}

/// The key can be handled without cutting a character apart or overflowing the column.
pub open spec fn key_ok(v: EditorView, key: EditorKey) -> bool {
    let line = v.0[v.1];
    let fits = forall|k: int| 0 <= k < v.0.len() ==> byte_len(#[trigger] v.0[k]) < usize::MAX;
    &&& fits
    &&& match key {
        EditorKey::Char(_) => is_boundary(line, v.2),
        EditorKey::Enter => is_boundary(line, v.2),
        EditorKey::Backspace => v.2 > 0 ==> char_starts_at(line, v.2 - 1),
        EditorKey::Delete => v.2 < byte_len(line) ==> char_starts_at(line, v.2),
        EditorKey::Tab => is_boundary(line, v.2) && v.2 + 4 <= usize::MAX,
        _ => true,
    }
}

/// Every character of `t` but the last is ASCII, so that typing it in one character
/// after the other never lands the column inside a character.
pub open spec fn typeable(t: Seq<char>) -> bool {
    forall|i: int| 0 <= i < t.len() - 1 ==> (#[trigger] t[i] as u32) < 0x80
}

/// The byte length of `s`.
fn line_len(s: &String) -> (n: usize)
    requires
        byte_len(s@) <= usize::MAX,
    ensures
        n == byte_len(s@),
{
    let v = chars_of(s.as_str());
    assert(v@.subrange(0, v@.len() as int) =~= v@);
    byte_len_of_range(&v, 0, v.len())
}

/// The character index at byte offset `col` of `s`, which falls between characters.
fn char_index(s: &String, col: usize) -> (k: usize)
    requires
        is_boundary(s@, col as int),
    ensures
        k == char_index_at(s@, col as int),
        k <= s@.len(),
{
    match char_index_for_byte(s.as_str(), col) {
        Some(k) => {
            proof {
                let j = choose|j: int| 0 <= j <= s@.len() && byte_offset(s@, j) == col;
                lemma_char_index_at(s@, j);
            }
            k
        },
        None => 0,
    }
}

/// A byte offset between two characters is at most the byte length.
proof fn lemma_boundary_le(line: Seq<char>, col: int)
    requires
        is_boundary(line, col),
    ensures
        0 <= char_index_at(line, col) <= line.len(),
        byte_offset(line, char_index_at(line, col)) == col,
        col <= byte_len(line),
        col < byte_len(line) ==> char_index_at(line, col) < line.len(),
{
    let j = choose|j: int| 0 <= j <= line.len() && byte_offset(line, j) == col;
    lemma_char_index_at(line, j);
    lemma_byte_offset_mono(line, j, line.len() as int);
    assert(line.take(line.len() as int) =~= line);
}

/// The start of a line falls between two characters.
proof fn lemma_start_is_boundary(line: Seq<char>)
    ensures
        is_boundary(line, 0),
{
    assert(line.take(0) =~= Seq::<char>::empty());
    lemma_char_index_at(line, 0);
}

/// After typing `c` at a boundary, the cursor one character further is a boundary too.
proof fn lemma_typed_boundary(line: Seq<char>, col: int, c: char)
    requires
        is_boundary(line, col),
    ensures
        is_boundary(with_char(line, col, c), col + crate::text::char_width(c)),
{
    lemma_boundary_le(line, col);
    let k = char_index_at(line, col);
    let nl = with_char(line, col, c);
    assert(nl.take(k + 1) =~= line.take(k).push(c));
    assert(line.take(k).push(c).drop_last() =~= line.take(k));
    assert(byte_offset(nl, k + 1) == col + crate::text::char_width(c));
}

impl Editor {
    /// An empty editor: one empty line, the cursor and the view at the start.
    pub fn new() -> (e: Self)
        ensures
            e.wf(),
            e@ == (seq![Seq::<char>::empty()], 0int, 0int, 0int),
            cursor_in_line(e@),
            is_boundary(e@.0[0], 0),
    {
        let mut lines: Vec<String> = Vec::new();
        lines.push(String::new());
        let e = Editor { lines, cursor_row: 0, cursor_col: 0, scroll_offset: 0 };
        assert(e@.0 =~= seq![Seq::<char>::empty()]);
        proof {
            lemma_start_is_boundary(e@.0[0]);
        }
        e
    }

    /// Replaces the whole text, one line per `'\n'`-separated piece, with the cursor at
    /// the start.  The scroll offset stays.
    pub fn insert_text(&mut self, text: &str)
        requires
            typeable(text@),
        ensures
            final(self).wf(),
            final(self)@ == (split_lines(text@), 0int, 0int, old(self)@.3),
            cursor_in_line(final(self)@),
            is_boundary(final(self)@.0[0], 0),
    {
        let v = chars_of(text);
        let pieces = split_lines_exec(&v, 0, v.len());
        assert(v@.subrange(0, v@.len() as int) =~= text@);
        proof {
            lemma_split_join(text@);
        }
        let mut lines: Vec<String> = Vec::new();
        let mut k: usize = 0;
        while k < pieces.len()
            invariant
                k <= pieces@.len(),
                pieces.deep_view() == split_lines(text@),
                lines_view(lines@) == pieces.deep_view().take(k as int),
            decreases pieces@.len() - k,
        {
            let ghost before = lines_view(lines@);
            let line = string_of(&pieces[k]);
            lines.push(line);
            assert(pieces@[k as int].deep_view() =~= pieces@[k as int]@);
            assert(pieces.deep_view()[k as int] == pieces@[k as int]@);
            assert(lines_view(lines@) =~= before.push(pieces@[k as int]@));
            assert(pieces.deep_view().take(k + 1) =~= pieces.deep_view().take(k as int).push(pieces.deep_view()[k as int]));
            assert(lines_view(lines@) =~= pieces.deep_view().take(k + 1));
            k = k + 1;
        }
        assert(pieces.deep_view().take(k as int) =~= pieces.deep_view());
        self.lines = lines;
        self.cursor_row = 0;
        self.cursor_col = 0;
        proof {
            lemma_start_is_boundary(self@.0[0]);
        }
    }

    /// The text: the lines joined with `'\n'`.
    pub fn content(&self) -> (s: String)
        ensures
            s@ == join_lines(self@.0),
    {
        let mut out: Vec<char> = Vec::new();
        let mut k: usize = 0;
        while k < self.lines.len()
            invariant
                k <= self.lines@.len(),
                out@ == join_lines(lines_view(self.lines@).take(k as int)),
            decreases self.lines@.len() - k,
        {
            let ghost prev = lines_view(self.lines@).take(k as int);
            if k > 0 {
                out.push('\n');
            }
            let line = chars_of(self.lines[k].as_str());
            crate::text::extend_all(&mut out, &line);
            proof {
                lemma_join_push(prev, self.lines@[k as int]@);
                assert(lines_view(self.lines@).take(k + 1) =~= prev.push(self.lines@[k as int]@));
            }
            k = k + 1;
        }
        assert(lines_view(self.lines@).take(k as int) =~= lines_view(self.lines@));
        string_of(&out)
    }

    /// The lines.
    pub fn lines(&self) -> (r: &[String])
        ensures
            lines_view(r@) == self@.0,
    {
        self.lines.as_slice()
    }

    pub fn cursor_row(&self) -> (r: usize)
        ensures
            r == self@.1,
    {
        self.cursor_row
    }

    /// The line the cursor is on.
    pub fn cursor_line(&self) -> (r: usize)
        ensures
            r == self@.1,
    {
        self.cursor_row
    }

    /// The cursor's column, a byte offset into its line.
    pub fn cursor_col(&self) -> (r: usize)
        ensures
            r == self@.2,
    {
        self.cursor_col
    }

    fn insert_char(&mut self, c: char)
        requires
            old(self).shaped(),
            is_boundary(old(self)@.0[old(self)@.1], old(self)@.2),
            old(self)@.2 + 1 <= usize::MAX,
        ensures
            final(self).shaped(),
            final(self)@ == typed(old(self)@, c),
    {
        let i = self.cursor_row;
        let col = self.cursor_col;
        proof {
            lemma_boundary_le(self.lines@[i as int]@, col as int);
        }
        let k = char_index(&self.lines[i], col);
        let v = chars_of(self.lines[i].as_str());
        let mut out: Vec<char> = Vec::new();
        extend_range(&mut out, &v, 0, k);
        out.push(c);
        extend_range(&mut out, &v, k, v.len());
        assert(out@ =~= with_char(self.lines@[i as int]@, col as int, c));
        let ghost before = self.lines@;
        self.lines[i] = string_of(&out);
        self.cursor_col = col + 1;
        assert(lines_view(self.lines@) =~= lines_view(before).update(i as int, out@));
    }

    fn insert_newline(&mut self)
        requires
            old(self).shaped(),
            is_boundary(old(self)@.0[old(self)@.1], old(self)@.2),
        ensures
            final(self).shaped(),
            final(self)@ == broken(old(self)@),
    {
        let i = self.cursor_row;
        let col = self.cursor_col;
        let _n = self.lines.len();
        proof {
            lemma_boundary_le(self.lines@[i as int]@, col as int);
        }
        let k = char_index(&self.lines[i], col);
        let v = chars_of(self.lines[i].as_str());
        let first = string_of_range(&v, 0, k);
        let rest = string_of_range(&v, k, v.len());
        assert(first@ =~= v@.take(k as int));
        assert(rest@ =~= v@.skip(k as int));
        let ghost before = self.lines@;
        self.lines[i] = first;
        self.lines.insert(i + 1, rest);
        self.cursor_row = i + 1;
        self.cursor_col = 0;
        assert(lines_view(self.lines@) =~= lines_view(before).update(i as int, v@.take(k as int)).insert(
            i + 1,
            v@.skip(k as int),
        ));
    }

    /// `a + b` as one line.
    fn joined_line(a: &String, b: &String) -> (r: String)
        ensures
            r@ == a@ + b@,
    {
        let mut out = chars_of(a.as_str());
        let w = chars_of(b.as_str());
        crate::text::extend_all(&mut out, &w);
        string_of(&out)
    }

    /// Line `i` without the character that starts at byte `col`.
    fn line_without(&self, i: usize, col: usize) -> (r: String)
        requires
            i < self.lines@.len(),
            char_starts_at(self.lines@[i as int]@, col as int),
        ensures
            r@ == without_char(self.lines@[i as int]@, col as int),
    {
        proof {
            lemma_boundary_le(self.lines@[i as int]@, col as int);
        }
        let k = char_index(&self.lines[i], col);
        let v = chars_of(self.lines[i].as_str());
        let mut out: Vec<char> = Vec::new();
        extend_range(&mut out, &v, 0, k);
        extend_range(&mut out, &v, k + 1, v.len());
        assert(out@ =~= without_char(v@, col as int));
        string_of(&out)
    }

    fn delete_backward(&mut self)
        requires
            old(self).shaped(),
            key_ok(old(self)@, EditorKey::Backspace),
        ensures
            final(self).shaped(),
            final(self)@ == backspaced(old(self)@),
    {
        let i = self.cursor_row;
        let ghost before = self.lines@;
        if self.cursor_col > 0 {
            let col = self.cursor_col - 1;
            let line = self.line_without(i, col);
            self.lines[i] = line;
            self.cursor_col = col;
            assert(lines_view(self.lines@) =~= lines_view(before).update(i as int, line@));
        } else if i > 0 {
            let current = self.lines.remove(i);
            let r = i - 1;
            assert(before[r as int] == self.lines@[r as int]);
            assert(byte_len(old(self)@.0[r as int]) < usize::MAX);
            let n = line_len(&self.lines[r]);
            let line = Self::joined_line(&self.lines[r], &current);
            self.lines[r] = line;
            self.cursor_row = r;
            self.cursor_col = n;
            assert(lines_view(self.lines@) =~= lines_view(before).remove(i as int).update(
                r as int,
                before[r as int]@ + before[i as int]@,
            ));
        }
    }

    fn delete_forward(&mut self)
        requires
            old(self).shaped(),
            key_ok(old(self)@, EditorKey::Delete),
        ensures
            final(self).shaped(),
            final(self)@ == deleted(old(self)@),
    {
        let i = self.cursor_row;
        let col = self.cursor_col;
        let ghost before = self.lines@;
        let _len = self.lines.len();
        let n = line_len(&self.lines[i]);
        if col < n {
            let line = self.line_without(i, col);
            self.lines[i] = line;
            assert(lines_view(self.lines@) =~= lines_view(before).update(i as int, line@));
        } else if i + 1 < self.lines.len() {
            let next = self.lines.remove(i + 1);
            let line = Self::joined_line(&self.lines[i], &next);
            self.lines[i] = line;
            assert(lines_view(self.lines@) =~= lines_view(before).remove(i + 1).update(
                i as int,
                before[i as int]@ + before[i + 1]@,
            ));
        }
    }

    fn move_left(&mut self)
        requires
            old(self).shaped(),
            key_ok(old(self)@, EditorKey::Left),
        ensures
            final(self).shaped(),
            final(self)@ == key_spec(old(self)@, EditorKey::Left),
    {
        let ghost v = self@;
        if self.cursor_col > 0 {
            self.cursor_col = self.cursor_col - 1;
        } else if self.cursor_row > 0 {
            let r = self.cursor_row - 1;
            assert(byte_len(v.0[r as int]) < usize::MAX);
            self.cursor_col = line_len(&self.lines[r]);
            self.cursor_row = r;
        }
    }

    fn move_right(&mut self)
        requires
            old(self).shaped(),
            key_ok(old(self)@, EditorKey::Right),
        ensures
            final(self).shaped(),
            final(self)@ == key_spec(old(self)@, EditorKey::Right),
    {
        let ghost v = self@;
        let n = self.lines.len();
        assert(byte_len(v.0[v.1]) < usize::MAX);
        let len = line_len(&self.lines[self.cursor_row]);
        if self.cursor_col < len {
            self.cursor_col = self.cursor_col + 1;
        } else if self.cursor_row + 1 < n {
            self.cursor_row = self.cursor_row + 1;
            self.cursor_col = 0;
        }
    }

    fn move_up(&mut self)
        requires
            old(self).shaped(),
            key_ok(old(self)@, EditorKey::Up),
        ensures
            final(self).shaped(),
            final(self)@ == key_spec(old(self)@, EditorKey::Up),
    {
        let ghost v = self@;
        if self.cursor_row > 0 {
            let r = self.cursor_row - 1;
            assert(byte_len(v.0[r as int]) < usize::MAX);
            let len = line_len(&self.lines[r]);
            self.cursor_row = r;
            if len < self.cursor_col {
                self.cursor_col = len;
            }
            if r < self.scroll_offset {
                self.scroll_offset = r;
            }
        }
    }

    fn move_down(&mut self)
        requires
            old(self).shaped(),
            key_ok(old(self)@, EditorKey::Down),
        ensures
            final(self).shaped(),
            final(self)@ == key_spec(old(self)@, EditorKey::Down),
    {
        let ghost v = self@;
        let n = self.lines.len();
        if self.cursor_row + 1 < n {
            let r = self.cursor_row + 1;
            assert(byte_len(v.0[r as int]) < usize::MAX);
            let len = line_len(&self.lines[r]);
            self.cursor_row = r;
            if len < self.cursor_col {
                self.cursor_col = len;
            }
        }
    }

    /// Handles a key press (see `key_spec`).
    pub fn handle_key(&mut self, key: EditorKey)
        requires
            old(self).wf(),
            key_ok(old(self)@, key),
        ensures
            final(self).wf(),
            final(self)@ == key_spec(old(self)@, key),
            cursor_in_line(final(self)@),
    {
        let ghost v = self@;
        let n = self.lines.len();
        proof {
            assert(byte_len(v.0[v.1]) < usize::MAX);
        }
        match key {
            EditorKey::Char(c) => {
                proof {
                    lemma_boundary_le(v.0[v.1], v.2);
                }
                self.insert_char(c);
            },
            EditorKey::Enter => self.insert_newline(),
            EditorKey::Backspace => self.delete_backward(),
            EditorKey::Delete => self.delete_forward(),
            EditorKey::Left => self.move_left(),
            EditorKey::Right => self.move_right(),
            EditorKey::Up => self.move_up(),
            EditorKey::Down => self.move_down(),
            EditorKey::Home => {
                self.cursor_col = 0;
            },
            EditorKey::End => {
                self.cursor_col = line_len(&self.lines[self.cursor_row]);
            },
            EditorKey::CtrlHome => {
                self.cursor_row = 0;
                self.cursor_col = 0;
                self.scroll_offset = 0;
            },
            EditorKey::CtrlEnd => {
                let r = n - 1;
                assert(byte_len(v.0[r as int]) < usize::MAX);
                self.cursor_row = r;
                self.cursor_col = line_len(&self.lines[r]);
            },
            EditorKey::Tab => {
                proof {
                    lemma_typed_boundary(v.0[v.1], v.2, ' ');
                    lemma_typed_boundary(typed(v, ' ').0[v.1], v.2 + 1, ' ');
                    lemma_typed_boundary(typed(typed(v, ' '), ' ').0[v.1], v.2 + 2, ' ');
                }
                self.insert_char(' ');
                self.insert_char(' ');
                self.insert_char(' ');
                self.insert_char(' ');
            },
            EditorKey::Other => {},
        }
        proof {
            lemma_key_keeps_cursor_in_line(v, key);
        }
    }

    /// Scrolls so that the cursor's row is among the `visible_height` rows shown.
    pub fn adjust_scroll(&mut self, visible_height: usize)
        requires
            old(self).wf(),
            old(self)@.3 + visible_height <= usize::MAX,
        ensures
            final(self).wf(),
            final(self)@ == ({
                let v = old(self)@;
                (
                    v.0,
                    v.1,
                    v.2,
                    if v.1 < v.3 {
                        v.1
                    } else if v.1 >= v.3 + visible_height {
                        v.1 + 1 - visible_height
                    } else {
                        v.3
                    },
                )
            }),
    {
        let _n = self.lines.len();
        if self.cursor_row < self.scroll_offset {
            self.scroll_offset = self.cursor_row;
        } else if self.cursor_row >= self.scroll_offset + visible_height {
            self.scroll_offset = self.cursor_row + 1 - visible_height;
        }
    }
}

// ---------------------------------------------------------------------------
// Laws
// ---------------------------------------------------------------------------

/// Removing the character at a boundary keeps the text before it.
proof fn lemma_without_char_len(line: Seq<char>, col: int)
    requires
        char_starts_at(line, col),
    ensures
        col <= byte_len(without_char(line, col)),
{
    lemma_boundary_le(line, col);
    let k = char_index_at(line, col);
    crate::text::lemma_byte_len_concat(line.take(k), line.skip(k + 1));
}

/// Every key that the editor accepts keeps the cursor on a line, within that line.
pub proof fn lemma_key_keeps_cursor_in_line(v: EditorView, key: EditorKey)
    requires
        cursor_in_line(v),
        key_ok(v, key),
    ensures
        cursor_in_line(key_spec(v, key)),
{
    let line = v.0[v.1];
    match key {
        EditorKey::Char(c) => {
            lemma_typed_boundary(line, v.2, c);
            lemma_boundary_le(typed(v, c).0[v.1], v.2 + crate::text::char_width(c));
        },
        EditorKey::Tab => {
            lemma_typed_boundary(line, v.2, ' ');
            lemma_typed_boundary(typed(v, ' ').0[v.1], v.2 + 1, ' ');
            lemma_typed_boundary(typed(typed(v, ' '), ' ').0[v.1], v.2 + 2, ' ');
            let v3 = typed(typed(typed(v, ' '), ' '), ' ');
            lemma_typed_boundary(v3.0[v.1], v.2 + 3, ' ');
            lemma_boundary_le(typed(v3, ' ').0[v.1], v.2 + 4);
        },
        EditorKey::Backspace => {
            if v.2 > 0 {
                lemma_without_char_len(line, v.2 - 1);
            } else if v.1 > 0 {
                crate::text::lemma_byte_len_concat(v.0[v.1 - 1], line);
            }
        },
        EditorKey::Delete => {
            if v.2 < byte_len(line) {
                lemma_without_char_len(line, v.2);
            } else if v.1 + 1 < v.0.len() {
                crate::text::lemma_byte_len_concat(line, v.0[v.1 + 1]);
            }
        },
        _ => {},
    }
}

/// Every line holds only ASCII characters.
pub open spec fn ascii_lines(v: EditorView) -> bool {
    forall|k: int| 0 <= k < v.0.len() ==> all_ascii(#[trigger] v.0[k])
}

proof fn lemma_ascii_concat(a: Seq<char>, b: Seq<char>)
    requires
        all_ascii(a),
        all_ascii(b),
    ensures
        all_ascii(a + b),
{
    assert forall|i: int| 0 <= i < (a + b).len() implies (#[trigger] (a + b)[i] as u32) < 0x80 by {
        if i < a.len() {
            assert((a + b)[i] == a[i]);
        } else {
            assert((a + b)[i] == b[i - a.len()]);
        }
    }
}

proof fn lemma_ascii_subrange(a: Seq<char>, i: int, j: int)
    requires
        all_ascii(a),
        0 <= i <= j <= a.len(),
    ensures
        all_ascii(a.subrange(i, j)),
{
    assert forall|m: int| 0 <= m < j - i implies (#[trigger] a.subrange(i, j)[m] as u32) < 0x80 by {
        assert(a.subrange(i, j)[m] == a[i + m]);
    }
}

/// On ASCII text, every column up to the end falls between two characters, at the
/// character index of the same number.
pub proof fn lemma_ascii_boundary(line: Seq<char>, col: int)
    requires
        all_ascii(line),
        0 <= col <= line.len(),
    ensures
        byte_len(line) == line.len(),
        is_boundary(line, col),
        char_index_at(line, col) == col,
{
    lemma_ascii_subrange(line, 0, col);
    crate::text::lemma_byte_len_ascii(line.take(col));
    crate::text::lemma_byte_len_ascii(line);
    lemma_char_index_at(line, col);
}

/// Typing an ASCII character into ASCII lines keeps them ASCII, the cursor within its line.
proof fn lemma_typed_ascii(v: EditorView, c: char)
    requires
        cursor_in_line(v),
        ascii_lines(v),
        (c as u32) < 0x80,
    ensures
        cursor_in_line(typed(v, c)),
        ascii_lines(typed(v, c)),
{
    let line = v.0[v.1];
    assert(all_ascii(line));
    crate::text::lemma_byte_len_ascii(line);
    lemma_ascii_boundary(line, v.2);
    lemma_ascii_subrange(line, 0, v.2);
    lemma_ascii_subrange(line, v.2, line.len() as int);
    let pushed = line.take(v.2).push(c);
    assert(all_ascii(pushed)) by {
        assert forall|i: int| 0 <= i < pushed.len() implies (#[trigger] pushed[i] as u32) < 0x80 by {
            if i < v.2 {
                assert(pushed[i] == line.take(v.2)[i]);
            }
        }
    }
    lemma_ascii_concat(pushed, line.skip(v.2));
    let nl = with_char(line, v.2, c);
    crate::text::lemma_byte_len_ascii(nl);
    let n = typed(v, c);
    assert forall|k: int| 0 <= k < n.0.len() implies all_ascii(#[trigger] n.0[k]) by {
        if k != v.1 {
            assert(n.0[k] == v.0[k]);
        }
    }
}

/// On ASCII lines, with ASCII characters typed, every key keeps the lines ASCII and the
/// cursor within its line, so between two characters: the boundary demands of `key_ok`
/// on the next key are then met.
pub proof fn lemma_ascii_keys_keep_cursor_between_chars(v: EditorView, key: EditorKey)
    requires
        cursor_in_line(v),
        ascii_lines(v),
        key_ok(v, key),
        key is Char ==> (key->Char_0 as u32) < 0x80,
    ensures
        ({
            let n = key_spec(v, key);
            &&& cursor_in_line(n)
            &&& ascii_lines(n)
            &&& is_boundary(n.0[n.1], n.2)
        }),
{
    lemma_key_keeps_cursor_in_line(v, key);
    let line = v.0[v.1];
    assert(all_ascii(line));
    crate::text::lemma_byte_len_ascii(line);
    let n = key_spec(v, key);
    match key {
        EditorKey::Char(c) => {
            lemma_typed_ascii(v, c);
        },
        EditorKey::Tab => {
            lemma_typed_ascii(v, ' ');
            lemma_typed_ascii(typed(v, ' '), ' ');
            lemma_typed_ascii(typed(typed(v, ' '), ' '), ' ');
            lemma_typed_ascii(typed(typed(typed(v, ' '), ' '), ' '), ' ');
        },
        EditorKey::Enter => {
            lemma_ascii_boundary(line, v.2);
            lemma_ascii_subrange(line, 0, v.2);
            lemma_ascii_subrange(line, v.2, line.len() as int);
            assert forall|k: int| 0 <= k < n.0.len() implies all_ascii(#[trigger] n.0[k]) by {
                if k < v.1 {
                    assert(n.0[k] == v.0[k]);
                } else if k > v.1 + 1 {
                    assert(n.0[k] == v.0[k - 1]);
                }
            }
        },
        EditorKey::Backspace => {
            if v.2 > 0 {
                lemma_ascii_boundary(line, v.2 - 1);
                lemma_ascii_subrange(line, 0, v.2 - 1);
                lemma_ascii_subrange(line, v.2, line.len() as int);
                lemma_ascii_concat(line.take(v.2 - 1), line.skip(v.2));
                assert forall|k: int| 0 <= k < n.0.len() implies all_ascii(#[trigger] n.0[k]) by {
                    if k != v.1 {
                        assert(n.0[k] == v.0[k]);
                    }
                }
            } else if v.1 > 0 {
                lemma_ascii_concat(v.0[v.1 - 1], line);
                assert forall|k: int| 0 <= k < n.0.len() implies all_ascii(#[trigger] n.0[k]) by {
                    if k < v.1 - 1 {
                        assert(n.0[k] == v.0[k]);
                    } else if k > v.1 - 1 {
                        assert(n.0[k] == v.0[k + 1]);
                    }
                }
            }
        },
        EditorKey::Delete => {
            if v.2 < byte_len(line) {
                lemma_ascii_boundary(line, v.2);
                lemma_ascii_subrange(line, 0, v.2);
                lemma_ascii_subrange(line, v.2 + 1, line.len() as int);
                lemma_ascii_concat(line.take(v.2), line.skip(v.2 + 1));
                assert forall|k: int| 0 <= k < n.0.len() implies all_ascii(#[trigger] n.0[k]) by {
                    if k != v.1 {
                        assert(n.0[k] == v.0[k]);
                    }
                }
            } else if v.1 + 1 < v.0.len() {
                lemma_ascii_concat(line, v.0[v.1 + 1]);
                assert forall|k: int| 0 <= k < n.0.len() implies all_ascii(#[trigger] n.0[k]) by {
                    if k < v.1 {
                        assert(n.0[k] == v.0[k]);
                    } else if k > v.1 {
                        assert(n.0[k] == v.0[k + 1]);
                    }
                }
            }
        },
        _ => {},
    }
    let nline = n.0[n.1];
    assert(all_ascii(nline));
    crate::text::lemma_byte_len_ascii(nline);
    lemma_ascii_boundary(nline, n.2);
}

/// On ASCII lines with the cursor within its line, the editor accepts every key: the
/// demands of `key_ok` come down to the lines' and the column's fitting in `usize`.
pub proof fn lemma_ascii_keys_accepted(v: EditorView, key: EditorKey)
    requires
        cursor_in_line(v),
        ascii_lines(v),
        forall|k: int| 0 <= k < v.0.len() ==> byte_len(#[trigger] v.0[k]) < usize::MAX,
        key is Tab ==> v.2 + 4 <= usize::MAX,
    ensures
        key_ok(v, key),
{
    let line = v.0[v.1];
    assert(all_ascii(line));
    crate::text::lemma_byte_len_ascii(line);
    lemma_ascii_boundary(line, v.2);
    if v.2 > 0 {
        lemma_ascii_boundary(line, v.2 - 1);
    }
}

/// The text read back after `insert_text(t)` is `t`.
pub proof fn lemma_content_after_insert_text(t: Seq<char>)
    ensures
        join_lines(split_lines(t)) == t,
{
    lemma_split_join(t);
}

/// Backspace right after typing a character removes it again: the lines and the cursor
/// are as before.
pub proof fn lemma_backspace_undoes_typing(v: EditorView, c: char)
    requires
        0 <= v.1 < v.0.len(),
        is_boundary(v.0[v.1], v.2),
    ensures
        char_starts_at(typed(v, c).0[v.1], v.2),
        backspaced(typed(v, c)) == v,
{
    let line = v.0[v.1];
    lemma_boundary_le(line, v.2);
    let k = char_index_at(line, v.2);
    let nl = with_char(line, v.2, c);
    assert(nl.take(k) =~= line.take(k));
    assert(byte_offset(nl, k) == v.2);
    crate::text::lemma_byte_offset_step(nl, k);
    crate::text::lemma_byte_offset_mono(nl, k + 1, nl.len() as int);
    assert(nl.take(nl.len() as int) =~= nl);
    lemma_char_index_at(nl, k);
    assert(is_boundary(nl, v.2));
    assert(without_char(nl, v.2) =~= line);
    assert(typed(v, c).0.update(v.1, line) =~= v.0);
}

/// Backspace at the start of the line that Enter just began joins the two halves again:
/// the lines and the cursor are as before.
pub proof fn lemma_backspace_undoes_enter(v: EditorView)
    requires
        0 <= v.1 < v.0.len(),
        is_boundary(v.0[v.1], v.2),
    ensures
        backspaced(broken(v)) == v,
{
    let line = v.0[v.1];
    lemma_boundary_le(line, v.2);
    let k = char_index_at(line, v.2);
    let b = broken(v);
    assert(b.0[v.1] == line.take(k));
    assert(b.0[v.1 + 1] == line.skip(k));
    assert(line.take(k) + line.skip(k) =~= line);
    assert(byte_len(line.take(k)) == byte_offset(line, k));
    assert(b.0.remove(v.1 + 1).update(v.1, line) =~= v.0);
}

} // verus!
