//! Markdown formatting actions applied to the text buffer.
//!
//! Positions are character indices into the buffer (the editor's cursor is a
//! character cursor).  A position past the end of the buffer stands for the end.
use vstd::prelude::*;
use crate::text::{
    chars_of, dec, extend_all, extend_range, extend_str, join_lines, lemma_join_push, lemma_line_end,
    lemma_line_start, lemma_split_join, lemma_line_start_unique, lemma_line_end_unique, line_end, line_end_exec, line_start, line_start_exec,
    occurs_at_exec, push_decimal, split_lines, split_lines_exec, starts_with, ends_with,
    string_of, is_digit, has_char, after_newlines, lemma_after_newlines_concat,
    lemma_after_newlines_plain, lemma_after_newlines_len, lemma_join_prefixed, lemma_join_split, parse_u32_or_zero, parse_u32_digits, digits_value, lemma_dec_len,
};

verus! {

/// A formatting action of the toolbar or of a keyboard shortcut.
#[derive(Clone, Copy, Debug)]
pub enum EditorAction {
    /// Wrap selection with prefix/suffix (e.g. **bold**). Toggles if already wrapped.
    Wrap { prefix: &'static str, suffix: &'static str },
    /// Prepend a string to each selected line (e.g. `- `, `> `, `# `). Toggles if already present.
    LinePrefix(&'static str),
    /// Insert raw text at cursor (replacing selection).
    Insert(&'static str),
    /// Insert a code block fence with optional language.
    CodeBlock(&'static str),
    /// Insert a table skeleton at the cursor (on its own line).
    Table { rows: usize, cols: usize },
}

/// The buffer and the selection after an action.
pub struct ActionResult {
    pub new_content: String,
    /// Character index.
    pub new_cursor_start: usize,
    /// Character index.
    pub new_cursor_end: usize,
}

impl View for ActionResult {
    type V = (Seq<char>, int, int);

    open spec fn view(&self) -> (Seq<char>, int, int) {
        (self.new_content@, self.new_cursor_start as int, self.new_cursor_end as int)
    }
}

// ---------------------------------------------------------------------------
// Specifications
// ---------------------------------------------------------------------------

/// A position clamped to the end of a buffer of length `n`.
pub open spec fn clamp(i: int, n: int) -> int {
    if i < n {
        i
    } else {
        n
    }
}

pub open spec fn max_int(a: int, b: int) -> int {
    if a >= b {
        a
    } else {
        b
    }
}

/// The selection `c[start..end]` already holds `p` at its start and `s` at its end.
pub open spec fn wrapped_inside(c: Seq<char>, start: int, end: int, p: Seq<char>, s: Seq<char>) -> bool {
    let sel = c.subrange(clamp(start, c.len() as int), clamp(end, c.len() as int));
    starts_with(sel, p) && ends_with(sel, s) && sel.len() >= p.len() + s.len()
}

/// The selection `c[start..end]` is directly preceded by `p` and followed by `s`.
pub open spec fn wrapped_outside(c: Seq<char>, start: int, end: int, p: Seq<char>, s: Seq<char>) -> bool {
    ends_with(c.take(clamp(start, c.len() as int)), p) && starts_with(
        c.skip(clamp(end, c.len() as int)),
        s,
    )
}

/// Wrapping the selection `start <= end` in `p` and `s`, or unwrapping it when it is wrapped.
pub open spec fn wrap_spec(c: Seq<char>, start: int, end: int, p: Seq<char>, s: Seq<char>) -> (
    Seq<char>,
    int,
    int,
) {
    let bs = clamp(start, c.len() as int);
    let be = clamp(end, c.len() as int);
    let sel = c.subrange(bs, be);
    let before = c.take(bs);
    let after = c.skip(be);
    if wrapped_inside(c, start, end, p, s) {
        let inner = sel.subrange(p.len() as int, sel.len() - s.len());
        (before + inner + after, start, start + inner.len())
    } else if wrapped_outside(c, start, end, p, s) {
        (before.take(before.len() - p.len()) + sel + after.skip(s.len() as int), start - p.len(), end
            - p.len())
    } else {
        (before + p + sel + s + after, start + p.len(), end + p.len())
    }
}

/// Replacing the selection `start <= end` by `t`, with the cursor after `t`.
pub open spec fn insert_spec(c: Seq<char>, start: int, end: int, t: Seq<char>) -> (Seq<char>, int, int) {
    let bs = clamp(start, c.len() as int);
    let be = clamp(end, c.len() as int);
    (c.take(bs) + t + c.skip(be), start + t.len(), start + t.len())
}

/// Surrounding the selection `start <= end` by `open` and `close`, selecting the old selection.
pub open spec fn blocks_spec(c: Seq<char>, start: int, end: int, open: Seq<char>, close: Seq<char>) -> (
    Seq<char>,
    int,
    int,
) {
    let bs = clamp(start, c.len() as int);
    let be = clamp(end, c.len() as int);
    let sel = c.subrange(bs, be);
    (c.take(bs) + open + sel + close + c.skip(be), start + open.len(), start + open.len() + sel.len())
}

/// Opening fence of a code block in language `lang`: "\n```lang\n".
pub open spec fn code_open(lang: Seq<char>) -> Seq<char> {
    seq!['\n', '`', '`', '`'] + lang + seq!['\n']
}

/// Closing fence of a code block: "\n```\n".
pub open spec fn code_close() -> Seq<char> {
    seq!['\n', '`', '`', '`', '\n']
}

/// The selection `(s, e)` ordered.
pub open spec fn ordered(s: int, e: int) -> (int, int) {
    if s <= e {
        (s, e)
    } else {
        (e, s)
    }
}

/// What `apply` does.
pub open spec fn apply_spec(action: EditorAction, c: Seq<char>, s: int, e: int) -> (
    Seq<char>,
    int,
    int,
) {
    let (start, end) = ordered(s, e);
    match action {
        EditorAction::Wrap { prefix, suffix } => wrap_spec(c, start, end, prefix@, suffix@),
        EditorAction::LinePrefix(prefix) => line_prefix_spec(c, start, end, prefix@),
        EditorAction::Insert(t) => insert_spec(c, start, end, t@),
        EditorAction::CodeBlock(lang) => blocks_spec(c, start, end, code_open(lang@), code_close()),
        EditorAction::Table { rows, cols } => insert_spec(
            c,
            start,
            end,
            table_text(rows as nat, cols as nat),
        ),
    }
}

/// The cursor arithmetic of `apply` stays within the machine's integers.
pub open spec fn apply_fits(action: EditorAction, c: Seq<char>, s: int, e: int) -> bool {
    let (start, end) = ordered(s, e);
    match action {
        EditorAction::Wrap { prefix, suffix } => end + prefix@.len() <= usize::MAX,
        EditorAction::LinePrefix(prefix) => {
            &&& start + prefix@.len() + 3 <= i64::MAX
            &&& end + line_prefix_spec(c, start, end, prefix@).0.len() <= i64::MAX
            &&& end + line_prefix_spec(c, start, end, prefix@).0.len() <= usize::MAX
            &&& c.len() <= i64::MAX
        },
        EditorAction::Insert(t) => start + t@.len() <= usize::MAX,
        EditorAction::CodeBlock(lang) => start + code_open(lang@).len() + c.len() <= usize::MAX,
        EditorAction::Table { rows, cols } => start + table_text(rows as nat, cols as nat).len()
            <= usize::MAX,
    }
}

// Line prefixes --------------------------------------------------------------

/// The numbered-list marker "1. ", which numbers the lines 1., 2., 3., ...
pub open spec fn numbered_marker() -> Seq<char> {
    seq!['1', '.', ' ']
}

/// The selected lines already carry `p`: every non-empty line starts with it, and there is
/// a non-empty line (a selection of empty lines only gets the prefix).
pub open spec fn all_lines_have(lines: Seq<Seq<char>>, p: Seq<char>) -> bool {
    &&& forall|i: int| 0 <= i < lines.len() ==> starts_with(#[trigger] lines[i], p) || lines[i].len() == 0
    &&& exists|i: int| 0 <= i < lines.len() && #[trigger] lines[i].len() > 0
}

/// Line `i` of a region after `LinePrefix(p)`.
pub open spec fn prefixed_line(l: Seq<char>, p: Seq<char>, all_have: bool, i: int) -> Seq<char> {
    if all_have {
        if starts_with(l, p) {
            l.skip(p.len() as int)
        } else {
            l
        }
    } else if p == numbered_marker() {
        dec((i + 1) as nat) + seq!['.', ' '] + l
    } else {
        p + l
    }
}

/// The lines touched by the selection `start <= end`: bounds of the region.
pub open spec fn region_bounds(c: Seq<char>, start: int, end: int) -> (int, int) {
    (
        line_start(c, clamp(start, c.len() as int)),
        line_end(c, clamp(end, c.len() as int)),
    )
}

/// The lines of the region after `LinePrefix(p)`.
pub open spec fn prefixed_lines(lines: Seq<Seq<char>>, p: Seq<char>) -> Seq<Seq<char>> {
    Seq::new(lines.len(), |i: int| prefixed_line(lines[i], p, all_lines_have(lines, p), i))
}

/// Toggling the line prefix `p` on every line touched by the selection `start <= end`.
pub open spec fn line_prefix_spec(c: Seq<char>, start: int, end: int, p: Seq<char>) -> (
    Seq<char>,
    int,
    int,
) {
    let (ls, le) = region_bounds(c, start, end);
    let region = c.subrange(ls, le);
    let lines = split_lines(region);
    let all_have = all_lines_have(lines, p);
    let new_region = join_lines(prefixed_lines(lines, p));
    let first_shift: int = if all_have {
        if starts_with(lines[0], p) {
            -p.len()
        } else {
            0
        }
    } else if p == numbered_marker() {
        3
    } else {
        p.len() as int
    };
    let new_start = max_int(start + first_shift, ls);
    let new_end = max_int(end + (new_region.len() - region.len()), new_start);
    (c.take(ls) + new_region + c.skip(le), new_start, new_end)
}

// Tables ---------------------------------------------------------------------

/// Header cells " Header1 | Header2 |..." for `k` columns.
pub open spec fn header_cells(k: nat) -> Seq<char>
    decreases k,
{
    if k == 0 {
        seq![]
    } else {
        header_cells((k - 1) as nat) + seq![' ', 'H', 'e', 'a', 'd', 'e', 'r'] + dec(k) + seq![
            ' ',
            '|',
        ]
    }
}

/// `n` copies of `s`.
pub open spec fn repeat(s: Seq<char>, n: nat) -> Seq<char>
    decreases n,
{
    if n == 0 {
        seq![]
    } else {
        repeat(s, (n - 1) as nat) + s
    }
}

pub open spec fn separator_cell() -> Seq<char> {
    seq!['-', '-', '-', '-', '-', '-', '-', '-', '|']
}

pub open spec fn blank_cell() -> Seq<char> {
    seq![' ', ' ', ' ', ' ', ' ', ' ', ' ', ' ', '|']
}

/// The table skeleton with a header row, a separator row and `rows` empty rows.
pub open spec fn table_text(rows: nat, cols: nat) -> Seq<char> {
    seq!['\n', '|'] + header_cells(cols) + seq!['\n', '|'] + repeat(separator_cell(), cols) + seq![
        '\n',
    ] + repeat(seq!['|'] + repeat(blank_cell(), cols) + seq!['\n'], rows)
}

// List continuation ------------------------------------------------------------

/// Number of leading spaces and tabs of `s`.
pub open spec fn indent_len(s: Seq<char>) -> nat
    decreases s.len(),
{
    if s.len() > 0 && (s[0] == ' ' || s[0] == '\t') {
        1 + indent_len(s.drop_first())
    } else {
        0
    }
}

pub open spec fn task_open() -> Seq<char> {
    seq!['-', ' ', '[', ' ', ']', ' ']
}

pub open spec fn task_done_lower() -> Seq<char> {
    seq!['-', ' ', '[', 'x', ']', ' ']
}

pub open spec fn task_done_upper() -> Seq<char> {
    seq!['-', ' ', '[', 'X', ']', ' ']
}

/// The bullet marker `a` starts with, as (marker to continue with, text after the marker).
pub open spec fn bullet_continuation(a: Seq<char>) -> Option<(Seq<char>, Seq<char>)> {
    if starts_with(a, task_open()) {
        Some((task_open(), a.skip(6)))
    } else if starts_with(a, task_done_lower()) || starts_with(a, task_done_upper()) {
        Some((task_open(), a.skip(6)))
    } else if starts_with(a, seq!['-', ' ']) {
        Some((seq!['-', ' '], a.skip(2)))
    } else if starts_with(a, seq!['*', ' ']) {
        Some((seq!['*', ' '], a.skip(2)))
    } else if starts_with(a, seq!['+', ' ']) {
        Some((seq!['+', ' '], a.skip(2)))
    } else if starts_with(a, seq!['>', ' ']) {
        Some((seq!['>', ' '], a.skip(2)))
    } else {
        None
    }
}

/// Number of leading ASCII digits of `s`.
pub open spec fn digit_run(s: Seq<char>) -> nat
    decreases s.len(),
{
    if s.len() > 0 && is_digit(s[0]) {
        1 + digit_run(s.drop_first())
    } else {
        0
    }
}

/// `s.find(|c| !c.is_ascii_digit()).unwrap_or(0)`: where the leading digits end, or 0 if
/// every character is a digit.
pub open spec fn digit_end(s: Seq<char>) -> nat {
    if digit_run(s) < s.len() {
        digit_run(s)
    } else {
        0
    }
}

/// `s` starts with a numbered-list marker "N. ": the length of N.
pub open spec fn numbered_prefix(s: Seq<char>) -> Option<nat> {
    let d = digit_end(s);
    if d > 0 && starts_with(s.skip(d as int), seq!['.', ' ']) {
        Some(d)
    } else {
        None
    }
}

/// The text before the cursor on the cursor's line.
pub open spec fn line_before_cursor(c: Seq<char>, cursor: int) -> Seq<char> {
    let pos = clamp(cursor, c.len() as int);
    c.subrange(line_start(c, pos), pos)
}

/// What Enter at `cursor` does to a list or quote line.
pub open spec fn continue_list_spec(c: Seq<char>, cursor: int) -> Option<(Seq<char>, int, int)> {
    let pos = clamp(cursor, c.len() as int);
    let ls = line_start(c, pos);
    let line = c.subrange(ls, pos);
    let il = indent_len(line);
    let indent = line.take(il as int);
    let a = line.skip(il as int);
    match bullet_continuation(a) {
        Some((marker, rest)) => if rest.len() == 0 {
            let p = cursor - (il + marker.len());
            Some((c.take(ls) + c.skip(pos), p, p))
        } else {
            let ins = seq!['\n'] + indent + marker;
            Some((c.take(pos) + ins + c.skip(pos), cursor + ins.len(), cursor + ins.len()))
        },
        None => match numbered_prefix(a) {
            Some(d) => {
                let n = parse_u32_or_zero(a.take(d as int));
                let rest = a.skip(d + 2 as int);
                if rest.len() == 0 {
                    let p = cursor - (il + d + 2);
                    Some((c.take(ls) + c.skip(pos), p, p))
                } else {
                    let ins = seq!['\n'] + indent + dec(n + 1) + seq!['.', ' '];
                    Some((c.take(pos) + ins + c.skip(pos), cursor + ins.len(), cursor + ins.len()))
                }
            },
            None => None,
        },
    }
}

/// The list number after which Enter continues (`u32::MAX + 1` cannot be written).
pub open spec fn continue_list_fits(c: Seq<char>, cursor: int) -> bool {
    let pos = clamp(cursor, c.len() as int);
    let line = c.subrange(line_start(c, pos), pos);
    let a = line.skip(indent_len(line) as int);
    &&& cursor + c.len() + 16 <= usize::MAX
    &&& bullet_continuation(a) is None ==> match numbered_prefix(a) {
        Some(d) => a.len() > d + 2 ==> parse_u32_or_zero(a.take(d as int)) < u32::MAX,
        None => true,
    }
}

// Moving lines -------------------------------------------------------------------

/// `x` without a trailing newline.
pub open spec fn strip_newline(x: Seq<char>) -> Seq<char> {
    if x.len() > 0 && x.last() == '\n' {
        x.drop_last()
    } else {
        x
    }
}

/// Moving the lines touched by the selection one line up (`up`) or down.
pub open spec fn move_lines_spec(c: Seq<char>, s: int, e: int, up: bool) -> Option<(Seq<char>, int, int)> {
    let (start, end) = ordered(s, e);
    let (bst, ben) = region_bounds(c, start, end);
    if up {
        if bst == 0 {
            None
        } else {
            let pst = line_start(c, bst - 1);
            let prev_line = c.subrange(pst, bst);
            let new = c.take(pst) + c.subrange(bst, ben) + seq!['\n'] + strip_newline(prev_line)
                + c.skip(ben);
            let shift = prev_line.len() as int;
            Some((new, max_int(s - shift, 0), max_int(e - shift, 0)))
        }
    } else {
        if ben >= c.len() {
            None
        } else {
            let nle = line_end(c, ben + 1);
            let next_line = c.subrange(ben + 1, nle);
            let new = c.take(bst) + next_line + seq!['\n'] + c.subrange(bst, ben) + c.skip(nle);
            let shift = next_line.len() + 1;
            Some((new, s + shift, e + shift))
        }
    }
}

/// The cursor arithmetic of `move_lines` stays within the machine's integers.
pub open spec fn move_lines_fits(c: Seq<char>, s: int, e: int) -> bool {
    &&& s <= i64::MAX
    &&& e <= i64::MAX
    &&& c.len() <= i64::MAX
    &&& s + c.len() + 1 <= usize::MAX
    &&& e + c.len() + 1 <= usize::MAX
}

/// The view of an optional result.
pub open spec fn opt_view(r: Option<ActionResult>) -> Option<(Seq<char>, int, int)> {
    match r {
        Some(x) => Some(x@),
        None => None,
    }
}

// ---------------------------------------------------------------------------
// Implementation
// ---------------------------------------------------------------------------

/// Applies `action` to `content` with the selection `(sel_start_char, sel_end_char)` (in either order).
pub fn apply(action: EditorAction, content: &str, sel_start_char: usize, sel_end_char: usize) -> (r:
    ActionResult)
    requires
        apply_fits(action, content@, sel_start_char as int, sel_end_char as int),
    ensures
        r@ == apply_spec(action, content@, sel_start_char as int, sel_end_char as int),
{
    let (start, end) = if sel_start_char <= sel_end_char {
        (sel_start_char, sel_end_char)
    } else {
        (sel_end_char, sel_start_char)
    };
    let c = chars_of(content);
    match action {
        EditorAction::Wrap { prefix, suffix } => wrap_selection(&c, start, end, prefix, suffix),
        EditorAction::LinePrefix(prefix) => line_prefix(&c, start, end, prefix),
        EditorAction::Insert(text) => {
            let t = chars_of(text);
            insert_text(&c, start, end, &t)
        },
        EditorAction::CodeBlock(lang) => {
            let mut open = chars_of("\n```");
            let lang_chars = chars_of(lang);
            extend_all(&mut open, &lang_chars);
            open.push('\n');
            let close = chars_of("\n```\n");
            proof {
                reveal_strlit("\n```");
                reveal_strlit("\n```\n");
                assert(open@ =~= code_open(lang@));
                assert(close@ =~= code_close());
            }
            wrap_with_blocks(&c, start, end, &open, &close)
        },
        EditorAction::Table { rows, cols } => insert_table(&c, start, end, rows, cols),
    }
}

/// `i` clamped to the length of `c`.
fn clamp_index(c: &Vec<char>, i: usize) -> (r: usize)
    ensures
        r == clamp(i as int, c@.len() as int),
{
    if i < c.len() {
        i
    } else {
        c.len()
    }
}

/// The selection `c[bs..be]` starts with `p`, ends with `s`, and holds both.
fn is_wrapped_inside(c: &Vec<char>, bs: usize, be: usize, p: &Vec<char>, s: &Vec<char>) -> (b: bool)
    requires
        bs <= be <= c@.len(),
    ensures
        b == {
            let sel = c@.subrange(bs as int, be as int);
            starts_with(sel, p@) && ends_with(sel, s@) && sel.len() >= p@.len() + s@.len()
        },
{
    let ghost sel = c@.subrange(bs as int, be as int);
    let sel_len = be - bs;
    if p.len() > sel_len || s.len() > sel_len - p.len() {
        return false;
    }
    assert(sel.take(p@.len() as int) =~= c@.subrange(bs as int, bs + p@.len()));
    assert(sel.skip(sel.len() - s@.len()) =~= c@.subrange(be - s@.len(), be as int));
    occurs_at_exec(c, p, bs) && occurs_at_exec(c, s, be - s.len())
}

/// `c[..bs]` ends with `p` and `c[be..]` starts with `s`.
fn is_wrapped_outside(c: &Vec<char>, bs: usize, be: usize, p: &Vec<char>, s: &Vec<char>) -> (b: bool)
    requires
        bs <= be <= c@.len(),
    ensures
        b == (ends_with(c@.take(bs as int), p@) && starts_with(c@.skip(be as int), s@)),
        b ==> be + s@.len() <= c@.len() && p@.len() <= bs,
{
    if p.len() > bs {
        return false;
    }
    assert(c@.take(bs as int).skip(bs - p@.len()) =~= c@.subrange(bs - p@.len(), bs as int));
    proof {
        if s@.len() + be <= c@.len() {
            assert(c@.skip(be as int).take(s@.len() as int) =~= c@.subrange(be as int, be + s@.len()));
        }
    }
    occurs_at_exec(c, p, bs - p.len()) && occurs_at_exec(c, s, be)
}

fn wrap_selection(c: &Vec<char>, start: usize, end: usize, prefix: &str, suffix: &str) -> (r:
    ActionResult)
    requires
        start <= end,
        end + prefix@.len() <= usize::MAX,
    ensures
        r@ == wrap_spec(c@, start as int, end as int, prefix@, suffix@),
{
    let p = chars_of(prefix);
    let s = chars_of(suffix);
    let bs = clamp_index(c, start);
    let be = clamp_index(c, end);
    let ghost sel = c@.subrange(bs as int, be as int);
    let ghost before = c@.take(bs as int);
    let ghost after = c@.skip(be as int);
    if is_wrapped_inside(c, bs, be, &p, &s) {
        let mut out: Vec<char> = Vec::new();
        extend_range(&mut out, c, 0, bs);
        extend_range(&mut out, c, bs + p.len(), be - s.len());
        extend_range(&mut out, c, be, c.len());
        let inner_len = be - s.len() - bs - p.len();
        proof {
            let inner = sel.subrange(p@.len() as int, sel.len() - s@.len());
            assert(inner =~= c@.subrange(bs + p@.len(), be - s@.len()));
            assert(out@ =~= before + inner + after);
        }
        return ActionResult {
            new_content: string_of(&out),
            new_cursor_start: start,
            new_cursor_end: start + inner_len,
        };
    }
    if is_wrapped_outside(c, bs, be, &p, &s) {
        let mut out: Vec<char> = Vec::new();
        extend_range(&mut out, c, 0, bs - p.len());
        extend_range(&mut out, c, bs, be);
        let clen = c.len();
        assert(be + s@.len() <= clen);
        let after_start = be + s.len();
        extend_range(&mut out, c, after_start, c.len());
        proof {
            assert(out@ =~= before.take(before.len() - p@.len()) + sel + after.skip(
                s@.len() as int,
            ));
        }
        return ActionResult {
            new_content: string_of(&out),
            new_cursor_start: start - p.len(),
            new_cursor_end: end - p.len(),
        };
    }
    let mut out: Vec<char> = Vec::new();
    extend_range(&mut out, c, 0, bs);
    extend_all(&mut out, &p);
    extend_range(&mut out, c, bs, be);
    extend_all(&mut out, &s);
    extend_range(&mut out, c, be, c.len());
    proof {
        assert(out@ =~= before + p@ + sel + s@ + after);
    }
    ActionResult {
        new_content: string_of(&out),
        new_cursor_start: start + p.len(),
        new_cursor_end: end + p.len(),
    }
}

fn insert_text(c: &Vec<char>, start: usize, end: usize, t: &Vec<char>) -> (r: ActionResult)
    requires
        start <= end,
        start + t@.len() <= usize::MAX,
    ensures
        r@ == insert_spec(c@, start as int, end as int, t@),
{
    let bs = clamp_index(c, start);
    let be = clamp_index(c, end);
    let mut out: Vec<char> = Vec::new();
    extend_range(&mut out, c, 0, bs);
    extend_all(&mut out, t);
    extend_range(&mut out, c, be, c.len());
    proof {
        assert(out@ =~= c@.take(bs as int) + t@ + c@.skip(be as int));
    }
    let new_pos = start + t.len();
    ActionResult { new_content: string_of(&out), new_cursor_start: new_pos, new_cursor_end: new_pos }
}

fn wrap_with_blocks(
    c: &Vec<char>,
    start: usize,
    end: usize,
    block_open: &Vec<char>,
    block_close: &Vec<char>,
) -> (r: ActionResult)
    requires
        start <= end,
        start + block_open@.len() + c@.len() <= usize::MAX,
    ensures
        r@ == blocks_spec(c@, start as int, end as int, block_open@, block_close@),
{
    let bs = clamp_index(c, start);
    let be = clamp_index(c, end);
    let mut out: Vec<char> = Vec::new();
    extend_range(&mut out, c, 0, bs);
    extend_all(&mut out, block_open);
    extend_range(&mut out, c, bs, be);
    extend_all(&mut out, block_close);
    extend_range(&mut out, c, be, c.len());
    proof {
        assert(out@ =~= c@.take(bs as int) + block_open@ + c@.subrange(bs as int, be as int)
            + block_close@ + c@.skip(be as int));
    }
    let new_start = start + block_open.len();
    let new_end = new_start + (be - bs);
    ActionResult {
        new_content: string_of(&out),
        new_cursor_start: new_start,
        new_cursor_end: new_end,
    }
}

fn line_prefix(c: &Vec<char>, start: usize, end: usize, prefix: &str) -> (r: ActionResult)
    requires
        start <= end,
        start + prefix@.len() + 3 <= i64::MAX,
        end + line_prefix_spec(c@, start as int, end as int, prefix@).0.len() <= i64::MAX,
        end + line_prefix_spec(c@, start as int, end as int, prefix@).0.len() <= usize::MAX,
        c@.len() <= i64::MAX,
    ensures
        r@ == line_prefix_spec(c@, start as int, end as int, prefix@),
{
    let p = chars_of(prefix);
    let bs = clamp_index(c, start);
    let be = clamp_index(c, end);
    let ls = line_start_exec(c, bs);
    let le = line_end_exec(c, be);
    proof {
        lemma_line_start(c@, bs as int);
        lemma_line_end(c@, be as int);
    }
    let lines = split_lines_exec(c, ls, le);
    let ghost region = c@.subrange(ls as int, le as int);
    let ghost lv = lines.deep_view();
    proof {
        lemma_split_join(region);
    }
    // Do the non-empty lines all carry the prefix, and is there one?
    let mut every = true;
    let mut some_text = false;
    let mut k: usize = 0;
    while k < lines.len()
        invariant
            k <= lines@.len(),
            lv == lines.deep_view(),
            lv.len() == lines@.len(),
            every == (forall|j: int| 0 <= j < k ==> starts_with(#[trigger] lv[j], p@) || lv[j].len() == 0),
            some_text == (exists|j: int| 0 <= j < k && #[trigger] lv[j].len() > 0),
        decreases lines@.len() - k,
    {
        let l = &lines[k];
        assert(l@ =~= lv[k as int]);
        let ok = l.len() == 0 || occurs_at_exec(l, &p, 0);
        proof {
            if p@.len() <= l@.len() {
                assert(l@.take(p@.len() as int) =~= l@.subrange(0, p@.len() as int));
            }
        }
        if !ok {
            every = false;
        }
        if l.len() > 0 {
            some_text = true;
        }
        k = k + 1;
    }
    let all_have = every && some_text;
    assert(all_have == all_lines_have(lv, p@));
    let numbered = p.len() == 3 && p[0] == '1' && p[1] == '.' && p[2] == ' ';
    assert(numbered == (p@ == numbered_marker())) by {
        if p@.len() == 3 && p@[0] == '1' && p@[1] == '.' && p@[2] == ' ' {
            assert(p@ =~= numbered_marker());
        }
    }
    let ghost new_lines = prefixed_lines(lv, p@);
    let mut out: Vec<char> = Vec::new();
    extend_range(&mut out, c, 0, ls);
    let mut i: usize = 0;
    while i < lines.len()
        invariant
            i <= lines@.len(),
            lv == lines.deep_view(),
            lv.len() == lines@.len(),
            new_lines == prefixed_lines(lv, p@),
            all_have == all_lines_have(lv, p@),
            numbered == (p@ == numbered_marker()),
            out@ == c@.take(ls as int) + join_lines(new_lines.take(i as int)),
        decreases lines@.len() - i,
    {
        let l = &lines[i];
        assert(l@ =~= lv[i as int]);
        let ghost before_out = out@;
        if i > 0 {
            out.push('\n');
        }
        let ghost mid_out = out@;
        if all_have {
            let has = p.len() <= l.len() && occurs_at_exec(l, &p, 0);
            proof {
                if p@.len() <= l@.len() {
                    assert(l@.take(p@.len() as int) =~= l@.subrange(0, p@.len() as int));
                }
            }
            if has {
                extend_range(&mut out, l, p.len(), l.len());
                assert(l@.subrange(p@.len() as int, l@.len() as int) =~= l@.skip(p@.len() as int));
            } else {
                extend_all(&mut out, l);
            }
        } else if numbered {
            push_decimal(&mut out, (i + 1) as u64);
            out.push('.');
            out.push(' ');
            extend_all(&mut out, l);
        } else {
            extend_all(&mut out, &p);
            extend_all(&mut out, l);
        }
        proof {
            assert(out@ =~= mid_out + new_lines[i as int]);
            lemma_join_push(new_lines.take(i as int), new_lines[i as int]);
            assert(new_lines.take(i + 1) =~= new_lines.take(i as int).push(new_lines[i as int]));
            if i > 0 {
                assert(out@ =~= c@.take(ls as int) + join_lines(new_lines.take(i + 1)));
            } else {
                assert(new_lines.take(0) =~= Seq::<Seq<char>>::empty());
                assert(out@ =~= c@.take(ls as int) + join_lines(new_lines.take(i + 1)));
            }
        }
        i = i + 1;
    }
    assert(new_lines.take(lines@.len() as int) =~= new_lines);
    let new_region_len = out.len() - ls;
    extend_range(&mut out, c, le, c.len());
    let ghost new_region = join_lines(new_lines);
    assert(out@ =~= c@.take(ls as int) + new_region + c@.skip(le as int));
    assert(new_region_len == new_region.len());
    let first_shift: i64 = if all_have {
        let l0 = &lines[0];
        assert(l0@ =~= lv[0]);
        let has0 = p.len() <= l0.len() && occurs_at_exec(l0, &p, 0);
        proof {
            if p@.len() <= l0@.len() {
                assert(l0@.take(p@.len() as int) =~= l0@.subrange(0, p@.len() as int));
            }
        }
        if has0 {
            -(p.len() as i64)
        } else {
            0
        }
    } else if numbered {
        3
    } else {
        p.len() as i64
    };
    let ls_i = ls as i64;
    let ns = start as i64 + first_shift;
    let new_start: i64 = if ns >= ls_i {
        ns
    } else {
        ls_i
    };
    let added: i64 = new_region_len as i64 - (le - ls) as i64;
    let ne = end as i64 + added;
    let new_end: i64 = if ne >= new_start {
        ne
    } else {
        new_start
    };
    ActionResult {
        new_content: string_of(&out),
        new_cursor_start: new_start as usize,
        new_cursor_end: new_end as usize,
    }
}



// ---------------------------------------------------------------------------
// Laws
// ---------------------------------------------------------------------------

/// Wrapping toggles: wrapping a selection that is not already wrapped, then applying the
/// same action to the result and its selection, gives back the text and the selection.
pub proof fn lemma_wrap_twice_restores(action: EditorAction, c: Seq<char>, s: int, e: int)
    requires
        action is Wrap,
        0 <= s <= e <= c.len(),
        !wrapped_inside(c, s, e, action->prefix@, action->suffix@),
        !wrapped_outside(c, s, e, action->prefix@, action->suffix@),
    ensures
        ({
            let r = apply_spec(action, c, s, e);
            apply_spec(action, r.0, r.1, r.2) == (c, s, e)
        }),
{
    let p = action->prefix@;
    let sf = action->suffix@;
    let r = apply_spec(action, c, s, e);
    let sel = c.subrange(s, e);
    let before = c.take(s);
    let after = c.skip(e);
    assert(r == (before + p + sel + sf + after, s + p.len(), e + p.len()));
    let c2 = r.0;
    let s2 = s + p.len();
    let e2 = e + p.len();
    assert(c2.subrange(s2, e2) =~= sel);
    assert(c2.take(s2) =~= before + p);
    assert(c2.skip(e2) =~= sf + after);
    assert(!wrapped_inside(c2, s2, e2, p, sf));
    assert((before + p).skip((before + p).len() - p.len()) =~= p);
    assert((sf + after).take(sf.len() as int) =~= sf);
    assert(wrapped_outside(c2, s2, e2, p, sf));
    assert((before + p).take((before + p).len() - p.len()) =~= before);
    assert((sf + after).skip(sf.len() as int) =~= after);
    assert(before + sel + after =~= c);
}


/// The lines touched by the selection `start <= end`.
pub open spec fn selected_lines(c: Seq<char>, start: int, end: int) -> Seq<Seq<char>> {
    let (ls, le) = region_bounds(c, start, end);
    split_lines(c.subrange(ls, le))
}

/// The lines that the selection `s..e` of `c` touches, with `p` at the start of each:
/// the text, and the region of the prefixed lines.
spec fn prefixed_text(c: Seq<char>, s: int, e: int, p: Seq<char>) -> (Seq<char>, Seq<char>) {
    let (ls, le) = region_bounds(c, s, e);
    let r2 = p + after_newlines(c.subrange(ls, le), p);
    (c.take(ls) + r2 + c.skip(le), r2)
}

/// After prefixing, the selection start shifted by the prefix is on the first prefixed line.
proof fn lemma_prefixed_region_start(c: Seq<char>, s: int, e: int, p: Seq<char>)
    requires
        0 <= s <= e <= c.len(),
        !has_char(p, '\n'),
    ensures
        line_start(prefixed_text(c, s, e, p).0, s + p.len()) == region_bounds(c, s, e).0,
{
    let (ls, le) = region_bounds(c, s, e);
    lemma_line_start(c, s);
    lemma_line_end(c, e);
    let region = c.subrange(ls, le);
    let c2 = prefixed_text(c, s, e, p).0;
    let head = region.take(s - ls);
    assert forall|m: int| 0 <= m < head.len() implies head[m] != '\n' by {
        assert(head[m] == c[ls + m]);
    }
    assert(!has_char(head, '\n'));
    lemma_after_newlines_plain(head, p);
    assert(region =~= head + region.skip(s - ls));
    lemma_after_newlines_concat(head, region.skip(s - ls), p);
    let hp = p + head;
    assert forall|m: int| 0 <= m < hp.len() implies hp[m] != '\n' by {
        if m < p.len() {
            assert(hp[m] == p[m]);
            if p[m] == '\n' {
                assert(has_char(p, '\n'));
            }
        } else {
            assert(hp[m] == head[m - p.len()]);
        }
    }
    let after_head = after_newlines(region.skip(s - ls), p) + c.skip(le);
    assert(c2 =~= c.take(ls) + hp + after_head);
    if ls > 0 {
        assert(c.take(ls).last() == c[ls - 1]);
    }
    lemma_line_start_in_concat(c.take(ls), hp, after_head, hp.len() as int);
}

/// After prefixing, the selection end shifted along is on the last prefixed line, which
/// ends where the prefixed region ends.
proof fn lemma_prefixed_region_end(c: Seq<char>, s: int, e: int, p: Seq<char>)
    requires
        0 <= s <= e <= c.len(),
    ensures
        ({
            let (ls, le) = region_bounds(c, s, e);
            let r2 = prefixed_text(c, s, e, p).1;
            let e2 = e + (r2.len() - (le - ls));
            &&& e2 <= prefixed_text(c, s, e, p).0.len()
            &&& line_end(prefixed_text(c, s, e, p).0, e2) == ls + r2.len()
        }),
{
    let (ls, le) = region_bounds(c, s, e);
    lemma_line_start(c, s);
    lemma_line_end(c, e);
    let region = c.subrange(ls, le);
    let (c2, r2) = prefixed_text(c, s, e, p);
    let tail = region.skip(e - ls);
    assert forall|m: int| 0 <= m < tail.len() implies tail[m] != '\n' by {
        assert(tail[m] == c[e + m]);
    }
    assert(!has_char(tail, '\n'));
    lemma_after_newlines_plain(tail, p);
    assert(region =~= region.take(e - ls) + tail);
    lemma_after_newlines_concat(region.take(e - ls), tail, p);
    let front = c.take(ls) + p + after_newlines(region.take(e - ls), p);
    assert(c2 =~= front + tail + c.skip(le));
    if le < c.len() {
        assert(c.skip(le)[0] == c[le]);
    }
    lemma_line_end_in_concat(front, tail, c.skip(le), 0);
}

/// After `p` is put at the start of every line that the selection `s..e` touches, the
/// selection shifted along touches exactly the prefixed lines.
proof fn lemma_prefixed_region_bounds(c: Seq<char>, s: int, e: int, p: Seq<char>)
    requires
        0 <= s <= e <= c.len(),
        !has_char(p, '\n'),
    ensures
        ({
            let (ls, le) = region_bounds(c, s, e);
            let region = c.subrange(ls, le);
            let r2 = p + after_newlines(region, p);
            let c2 = c.take(ls) + r2 + c.skip(le);
            region_bounds(c2, s + p.len(), e + (r2.len() - region.len())) == (ls, ls + r2.len())
        }),
{
    let (ls, le) = region_bounds(c, s, e);
    lemma_line_start(c, s);
    lemma_line_end(c, e);
    lemma_after_newlines_len(c.subrange(ls, le), p);
    lemma_prefixed_region_start(c, s, e, p);
    lemma_prefixed_region_end(c, s, e, p);
}

/// Line prefixes toggle: adding a prefix (other than the numbered-list marker) to lines that do
/// not all carry it, then applying the same action to the result and its selection, gives back
/// the text and the selection.
#[verifier::rlimit(100)]
pub proof fn lemma_line_prefix_twice_restores(action: EditorAction, c: Seq<char>, s: int, e: int)
    requires
        action is LinePrefix,
        0 <= s <= e <= c.len(),
        !has_char(action->LinePrefix_0@, '\n'),
        action->LinePrefix_0@ != numbered_marker(),
        !all_lines_have(selected_lines(c, s, e), action->LinePrefix_0@),
    ensures
        ({
            let r = apply_spec(action, c, s, e);
            apply_spec(action, r.0, r.1, r.2) == (c, s, e)
        }),
{
    let p = action->LinePrefix_0@;
    let (ls, le) = region_bounds(c, s, e);
    lemma_line_start(c, s);
    lemma_line_end(c, e);
    let region = c.subrange(ls, le);
    let lines = split_lines(region);
    lemma_split_join(region);
    let k = lines.len();
    let new_lines = prefixed_lines(lines, p);
    assert(new_lines =~= Seq::new(k, |i: int| p + lines[i]));
    lemma_join_prefixed(lines, p);
    let r2 = join_lines(new_lines);
    assert(r2 == p + after_newlines(region, p));
    lemma_after_newlines_len(region, p);
    let c2 = c.take(ls) + r2 + c.skip(le);
    let s2 = s + p.len();
    let e2 = e + (r2.len() - region.len());
    assert(apply_spec(action, c, s, e) == (c2, s2, e2));
    lemma_prefixed_region_bounds(c, s, e, p);
    assert(region_bounds(c2, s2, e2) == (ls, ls + r2.len()));
    assert(c2.subrange(ls, ls + r2.len()) =~= r2);
    assert forall|m: int| 0 <= m < new_lines.len() implies !has_char(#[trigger] new_lines[m], '\n') by {
        let x = new_lines[m];
        assert(x == p + lines[m]);
        if has_char(x, '\n') {
            let i = choose|i: int| 0 <= i < x.len() && x[i] == '\n';
            if i < p.len() {
                assert(p[i] == '\n');
                assert(has_char(p, '\n'));
            } else {
                assert(lines[m][i - p.len()] == '\n');
                assert(has_char(lines[m], '\n'));
            }
        }
    }
    lemma_join_split(new_lines);
    assert(selected_lines(c2, s2, e2) == new_lines);
    if p.len() == 0 {
        assert(new_lines =~= lines);
        assert(c2 =~= c);
    } else {
        assert forall|m: int| 0 <= m < new_lines.len() implies starts_with(#[trigger] new_lines[m], p) by {
            assert(new_lines[m].take(p.len() as int) =~= p);
        }
        assert(new_lines[0].len() > 0);
        assert(all_lines_have(new_lines, p));
        assert forall|m: int| 0 <= m < k implies #[trigger] prefixed_lines(new_lines, p)[m] == lines[m] by {
            assert(new_lines[m].skip(p.len() as int) =~= lines[m]);
        }
        assert(prefixed_lines(new_lines, p) =~= lines);
        assert(c2.take(ls) =~= c.take(ls));
        assert(c2.skip(ls + r2.len()) =~= c.skip(le));
        assert(c.take(ls) + region + c.skip(le) =~= c);
    }
}

/// The selection that `LinePrefix(p)` returns lies in order within the new text.
proof fn lemma_line_prefix_bounds(c: Seq<char>, start: int, end: int, p: Seq<char>)
    requires
        0 <= start <= end <= c.len(),
    ensures
        ({
            let r = line_prefix_spec(c, start, end, p);
            0 <= r.1 <= r.2 <= r.0.len()
        }),
{
    let (ls, le) = region_bounds(c, start, end);
    lemma_line_start(c, start);
    lemma_line_end(c, end);
    let region = c.subrange(ls, le);
    let lines = split_lines(region);
    lemma_split_join(region);
    lemma_line_end(region, 0);
    let e0 = line_end(region, 0);
    if e0 < start - ls {
        assert(region[e0] == c[ls + e0]);
    }
    assert(lines[0].len() >= start - ls);
    let all_have = all_lines_have(lines, p);
    let new_lines = prefixed_lines(lines, p);
    let new_region = join_lines(new_lines);
    assert(new_region.len() >= new_lines[0].len()) by {
        if new_lines.len() > 1 {
            assert(new_region == new_lines[0] + seq!['\n'] + join_lines(new_lines.drop_first()));
        }
    }
    if all_have {
        if !starts_with(lines[0], p) {
            assert(starts_with(lines[0], p) || lines[0].len() == 0);
        }
    } else if p == numbered_marker() {
        lemma_dec_len(1);
    }
    let r = line_prefix_spec(c, start, end, p);
    assert(r.0.len() == ls + new_region.len() + (c.len() - le));
}

/// Applying an action does not depend on which end of the selection comes first, and the
/// selection it returns lies in order within the new text.
pub proof fn lemma_apply_selection(action: EditorAction, c: Seq<char>, s: int, e: int)
    requires
        0 <= s <= c.len(),
        0 <= e <= c.len(),
    ensures
        apply_spec(action, c, s, e) == apply_spec(action, c, e, s),
        ({
            let r = apply_spec(action, c, s, e);
            0 <= r.1 <= r.2 <= r.0.len()
        }),
{
    let (start, end) = ordered(s, e);
    match action {
        EditorAction::LinePrefix(prefix) => lemma_line_prefix_bounds(c, start, end, prefix@),
        _ => {},
    }
}

/// In `a + x + y`, the line holding `a.len() + i` starts at `a.len()` when `a` ends a line and
/// `x[..i]` holds no newline.
pub proof fn lemma_line_start_in_concat(a: Seq<char>, x: Seq<char>, y: Seq<char>, i: int)
    requires
        0 <= i <= x.len(),
        a.len() == 0 || a.last() == '\n',
        forall|k: int| 0 <= k < i ==> x[k] != '\n',
    ensures
        line_start(a + x + y, a.len() + i) == a.len(),
{
    let w = a + x + y;
    assert forall|k: int| a.len() <= k < a.len() + i implies w[k] != '\n' by {
        assert(w[k] == x[k - a.len()]);
    }
    if a.len() > 0 {
        assert(w[a.len() - 1] == a.last());
    }
    lemma_line_start_unique(w, a.len() + i, a.len() as int);
}

/// In `a + x + y`, the line holding `a.len() + j` ends at `a.len() + x.len()` when `x[j..]`
/// holds no newline and `y` is empty or starts with one.
pub proof fn lemma_line_end_in_concat(a: Seq<char>, x: Seq<char>, y: Seq<char>, j: int)
    requires
        0 <= j <= x.len(),
        y.len() == 0 || y[0] == '\n',
        forall|k: int| j <= k < x.len() ==> x[k] != '\n',
    ensures
        line_end(a + x + y, a.len() + j) == a.len() + x.len(),
{
    let w = a + x + y;
    assert forall|k: int| a.len() + j <= k < a.len() + x.len() implies w[k] != '\n' by {
        assert(w[k] == x[k - a.len()]);
    }
    if y.len() > 0 {
        assert(w[a.len() + x.len() as int] == y[0]);
    }
    lemma_line_end_unique(w, a.len() + j, a.len() + x.len() as int);
}

/// The pieces of a text around the lines touched by a selection, with the line before them.
pub proof fn lemma_move_pieces(c: Seq<char>, start: int, end: int)
    requires
        0 <= start <= end <= c.len(),
        region_bounds(c, start, end).0 > 0,
    ensures
        ({
            let (bst, ben) = region_bounds(c, start, end);
            let pst = line_start(c, bst - 1);
            let a = c.take(pst);
            let p = c.subrange(pst, bst - 1);
            let b = c.subrange(bst, ben);
            let s = c.skip(ben);
            &&& 0 <= pst < bst <= start <= end <= ben <= c.len()
            &&& c == a + p + seq!['\n'] + b + s
            &&& a.len() == 0 || a.last() == '\n'
            &&& forall|k: int| 0 <= k < p.len() ==> p[k] != '\n'
            &&& forall|k: int| 0 <= k < start - bst ==> b[k] != '\n'
            &&& forall|k: int| end - bst <= k < b.len() ==> b[k] != '\n'
            &&& s.len() == 0 || s[0] == '\n'
            &&& strip_newline(c.subrange(pst, bst)) == p
        }),
{
    let (bst, ben) = region_bounds(c, start, end);
    lemma_line_start(c, start);
    lemma_line_end(c, end);
    let pst = line_start(c, bst - 1);
    lemma_line_start(c, bst - 1);
    let a = c.take(pst);
    let p = c.subrange(pst, bst - 1);
    let b = c.subrange(bst, ben);
    let s = c.skip(ben);
    assert(c =~= a + p + seq!['\n'] + b + s);
    if pst > 0 {
        assert(a.last() == c[pst - 1]);
    }
    assert forall|k: int| 0 <= k < p.len() implies p[k] != '\n' by {
        assert(p[k] == c[pst + k]);
    }
    assert forall|k: int| 0 <= k < start - bst implies b[k] != '\n' by {
        assert(b[k] == c[bst + k]);
    }
    assert forall|k: int| end - bst <= k < b.len() implies b[k] != '\n' by {
        assert(b[k] == c[bst + k]);
    }
    if s.len() > 0 {
        assert(s[0] == c[ben]);
    }
    assert(c.subrange(pst, bst).last() == '\n');
    assert(c.subrange(pst, bst).drop_last() =~= p);
}

/// Moving lines up and then down again gives back the text and the selection.
#[verifier::rlimit(100)]
pub proof fn lemma_move_up_then_down_restores(c: Seq<char>, s: int, e: int)
    requires
        0 <= s <= c.len(),
        0 <= e <= c.len(),
        move_lines_spec(c, s, e, true) is Some,
    ensures
        ({
            let r = move_lines_spec(c, s, e, true)->0;
            move_lines_spec(r.0, r.1, r.2, false) == Some((c, s, e))
        }),
{
    let (start, end) = ordered(s, e);
    let (bst, ben) = region_bounds(c, start, end);
    lemma_line_start(c, start);
    assert(bst != 0);
    lemma_move_pieces(c, start, end);
    let pst = line_start(c, bst - 1);
    let a = c.take(pst);
    let p = c.subrange(pst, bst - 1);
    let b = c.subrange(bst, ben);
    let sf = c.skip(ben);
    let shift = p.len() + 1;
    let c2 = a + b + (seq!['\n'] + p + sf);
    assert(c2 =~= c.take(pst) + c.subrange(bst, ben) + seq!['\n'] + strip_newline(c.subrange(pst, bst))
        + c.skip(ben));
    assert(move_lines_spec(c, s, e, true)->0 == (c2, s - shift, e - shift));
    let (start2, end2) = ordered(s - shift, e - shift);
    assert(start2 == start - shift && end2 == end - shift);
    assert(c2.len() == c.len());
    lemma_line_start_in_concat(a, b, seq!['\n'] + p + sf, start - bst);
    lemma_line_end_in_concat(a, b, seq!['\n'] + p + sf, end - bst);
    assert(region_bounds(c2, start2, end2) == (pst, pst + b.len()));
    let ben2 = pst + b.len();
    let a2 = a + b + seq!['\n'];
    assert(c2 =~= a2 + p + sf);
    lemma_line_end_in_concat(a2, p, sf, 0);
    assert(line_end(c2, ben2 + 1) == ben2 + 1 + p.len());
    let nle = ben2 + 1 + p.len();
    assert(c2.subrange(ben2 + 1, nle) =~= p);
    assert(c2.subrange(pst, ben2) =~= b);
    assert(c2.take(pst) =~= a);
    assert(c2.skip(nle) =~= sf);
}

/// The pieces of a text around the lines touched by a selection, with the line after them.
pub proof fn lemma_move_down_pieces(c: Seq<char>, start: int, end: int)
    requires
        0 <= start <= end <= c.len(),
        region_bounds(c, start, end).1 < c.len(),
    ensures
        ({
            let (bst, ben) = region_bounds(c, start, end);
            let nle = line_end(c, ben + 1);
            let a = c.take(bst);
            let n = c.subrange(ben + 1, nle);
            let b = c.subrange(bst, ben);
            let s = c.skip(nle);
            &&& 0 <= bst <= start <= end <= ben < nle + 1 && nle <= c.len()
            &&& c == a + b + seq!['\n'] + n + s
            &&& a.len() == 0 || a.last() == '\n'
            &&& forall|k: int| 0 <= k < n.len() ==> n[k] != '\n'
            &&& forall|k: int| 0 <= k < start - bst ==> b[k] != '\n'
            &&& forall|k: int| end - bst <= k < b.len() ==> b[k] != '\n'
            &&& s.len() == 0 || s[0] == '\n'
        }),
{
    let (bst, ben) = region_bounds(c, start, end);
    lemma_line_start(c, start);
    lemma_line_end(c, end);
    lemma_line_end(c, ben + 1);
    let nle = line_end(c, ben + 1);
    let a = c.take(bst);
    let n = c.subrange(ben + 1, nle);
    let b = c.subrange(bst, ben);
    let sf = c.skip(nle);
    assert(c =~= a + b + seq!['\n'] + n + sf);
    if bst > 0 {
        assert(a.last() == c[bst - 1]);
    }
    assert forall|k: int| 0 <= k < start - bst implies b[k] != '\n' by {
        assert(b[k] == c[bst + k]);
    }
    assert forall|k: int| end - bst <= k < b.len() implies b[k] != '\n' by {
        assert(b[k] == c[bst + k]);
    }
    assert forall|k: int| 0 <= k < n.len() implies n[k] != '\n' by {
        assert(n[k] == c[ben + 1 + k]);
    }
    if sf.len() > 0 {
        assert(sf[0] == c[nle]);
    }
}

/// Moving lines down and then up again gives back the text and the selection.
#[verifier::rlimit(100)]
pub proof fn lemma_move_down_then_up_restores(c: Seq<char>, s: int, e: int)
    requires
        0 <= s <= c.len(),
        0 <= e <= c.len(),
        move_lines_spec(c, s, e, false) is Some,
    ensures
        ({
            let r = move_lines_spec(c, s, e, false)->0;
            move_lines_spec(r.0, r.1, r.2, true) == Some((c, s, e))
        }),
{
    let (start, end) = ordered(s, e);
    let (bst, ben) = region_bounds(c, start, end);
    lemma_line_end(c, end);
    assert(ben < c.len());
    lemma_move_down_pieces(c, start, end);
    let nle = line_end(c, ben + 1);
    let a = c.take(bst);
    let n = c.subrange(ben + 1, nle);
    let b = c.subrange(bst, ben);
    let sf = c.skip(nle);
    let c2 = a + n + seq!['\n'] + b + sf;
    let shift = n.len() + 1;
    assert(move_lines_spec(c, s, e, false)->0 == (c2, s + shift, e + shift));
    let (start2, end2) = ordered(s + shift, e + shift);
    assert(start2 == start + shift && end2 == end + shift);
    let a2 = a + n + seq!['\n'];
    assert(c2 =~= a2 + b + sf);
    lemma_line_start_in_concat(a2, b, sf, start - bst);
    lemma_line_end_in_concat(a2, b, sf, end - bst);
    let bst2 = bst + shift;
    assert(region_bounds(c2, start2, end2) == (bst2, nle));
    assert(c2 =~= a + n + (seq!['\n'] + b + sf));
    lemma_line_start_in_concat(a, n, seq!['\n'] + b + sf, n.len() as int);
    assert(line_start(c2, bst2 - 1) == bst);
    let prev = c2.subrange(bst, bst2);
    assert(prev.last() == '\n');
    assert(prev.drop_last() =~= n);
    assert(c2.subrange(bst2, nle) =~= b);
    assert(c2.take(bst) =~= a);
    assert(c2.skip(nle) =~= sf);
}

/// `c[from..to]` starts with `pat`.
pub(crate) fn starts_at(c: &Vec<char>, from: usize, to: usize, pat: &Vec<char>) -> (b: bool)
    requires
        from <= to <= c@.len(),
    ensures
        b == starts_with(c@.subrange(from as int, to as int), pat@),
{
    if pat.len() > to - from {
        return false;
    }
    assert(c@.subrange(from as int, to as int).take(pat@.len() as int) =~= c@.subrange(
        from as int,
        from + pat@.len(),
    ));
    occurs_at_exec(c, pat, from)
}

/// The bullet marker that `c[from..to]` starts with, and the marker's length.
pub(crate) fn bullet_at(c: &Vec<char>, from: usize, to: usize) -> (r: Option<(Vec<char>, usize)>)
    requires
        from <= to <= c@.len(),
    ensures
        match r {
            Some((m, k)) => k <= to - from && m@.len() <= k && bullet_continuation(c@.subrange(from as int, to as int))
                == Some((m@, c@.subrange(from as int, to as int).skip(k as int))),
            None => bullet_continuation(c@.subrange(from as int, to as int)) is None,
        },
{
    let ghost a = c@.subrange(from as int, to as int);
    let open_task = vec!['-', ' ', '[', ' ', ']', ' '];
    let done_lower = vec!['-', ' ', '[', 'x', ']', ' '];
    let done_upper = vec!['-', ' ', '[', 'X', ']', ' '];
    let dash = vec!['-', ' '];
    let star = vec!['*', ' '];
    let plus = vec!['+', ' '];
    let quote = vec!['>', ' '];
    assert(open_task@ =~= task_open());
    assert(done_lower@ =~= task_done_lower());
    assert(done_upper@ =~= task_done_upper());
    assert(dash@ =~= seq!['-', ' ']);
    assert(star@ =~= seq!['*', ' ']);
    assert(plus@ =~= seq!['+', ' ']);
    assert(quote@ =~= seq!['>', ' ']);
    if starts_at(c, from, to, &open_task) {
        Some((open_task, 6))
    } else if starts_at(c, from, to, &done_lower) || starts_at(c, from, to, &done_upper) {
        Some((open_task, 6))
    } else if starts_at(c, from, to, &dash) {
        Some((dash, 2))
    } else if starts_at(c, from, to, &star) {
        Some((star, 2))
    } else if starts_at(c, from, to, &plus) {
        Some((plus, 2))
    } else if starts_at(c, from, to, &quote) {
        Some((quote, 2))
    } else {
        None
    }
}

/// End of the leading spaces and tabs of `c[from..to]`.
pub(crate) fn indent_end(c: &Vec<char>, from: usize, to: usize) -> (r: usize)
    requires
        from <= to <= c@.len(),
    ensures
        r == from + indent_len(c@.subrange(from as int, to as int)),
        r <= to,
{
    let mut i = from;
    while i < to && (c[i] == ' ' || c[i] == '\t')
        invariant
            from <= i <= to <= c@.len(),
            indent_len(c@.subrange(from as int, to as int)) == (i - from) + indent_len(
                c@.subrange(i as int, to as int),
            ),
        decreases to - i,
    {
        assert(c@.subrange(i as int, to as int).drop_first() =~= c@.subrange(i + 1, to as int));
        i = i + 1;
    }
    proof {
        lemma_indent_len_le(c@.subrange(i as int, to as int));
    }
    i
}

pub proof fn lemma_indent_len_le(s: Seq<char>)
    ensures
        indent_len(s) <= s.len(),
        s.len() > 0 && (s[0] == ' ' || s[0] == '\t') ==> indent_len(s) > 0,
    decreases s.len(),
{
    if s.len() > 0 && (s[0] == ' ' || s[0] == '\t') {
        lemma_indent_len_le(s.drop_first());
    }
}

/// Number of leading ASCII digits of `c[from..to]`.
pub(crate) fn digit_run_exec(c: &Vec<char>, from: usize, to: usize) -> (r: usize)
    requires
        from <= to <= c@.len(),
    ensures
        r == digit_run(c@.subrange(from as int, to as int)),
        r <= to - from,
        forall|k: int| from <= k < from + r ==> is_digit(#[trigger] c@[k]),
        from + r < to ==> !is_digit(c@[from + r]),
{
    let mut i = from;
    while i < to && ('0' <= c[i] && c[i] <= '9')
        invariant
            from <= i <= to <= c@.len(),
            digit_run(c@.subrange(from as int, to as int)) == (i - from) + digit_run(
                c@.subrange(i as int, to as int),
            ),
            forall|k: int| from <= k < i ==> is_digit(#[trigger] c@[k]),
        decreases to - i,
    {
        assert(c@.subrange(i as int, to as int).drop_first() =~= c@.subrange(i + 1, to as int));
        i = i + 1;
    }
    i - from
}

/// On Enter at end of a list/quote line, continue the list marker.
/// Returns the new content and new cursor position if continuation was applied.
pub fn continue_list_on_enter(content: &str, cursor_char: usize) -> (r: Option<ActionResult>)
    requires
        continue_list_fits(content@, cursor_char as int),
    ensures
        opt_view(r) == continue_list_spec(content@, cursor_char as int),
{
    let c = chars_of(content);
    let pos = clamp_index(&c, cursor_char);
    let ls = line_start_exec(&c, pos);
    proof {
        lemma_line_start(c@, pos as int);
    }
    let ai = indent_end(&c, ls, pos);
    let ghost line = c@.subrange(ls as int, pos as int);
    let ghost a = line.skip((ai - ls) as int);
    assert(a =~= c@.subrange(ai as int, pos as int));
    assert(line.take((ai - ls) as int) =~= c@.subrange(ls as int, ai as int));
    match bullet_at(&c, ai, pos) {
        Some((marker, k)) => Some(continue_bullet(&c, pos, ls, ai, &marker, k, cursor_char)),
        None => {
            let run = digit_run_exec(&c, ai, pos);
            let d = if ai + run < pos {
                run
            } else {
                0
            };
            assert(d == digit_end(a));
            let dot = vec!['.', ' '];
            assert(dot@ =~= seq!['.', ' ']);
            assert(a.skip(d as int) =~= c@.subrange(ai + d, pos as int));
            if d > 0 && starts_at(&c, ai + d, pos, &dot) {
                assert(numbered_prefix(a) == Some(d as nat));
                assert(a.take(d as int) =~= c@.subrange(ai as int, ai + d));
                let parsed = parse_u32_digits(&c, ai, ai + d);
                let n: u32 = match parsed {
                    Some(v) => v,
                    None => 0,
                };
                assert(n == parse_u32_or_zero(a.take(d as int)));
                assert(a.skip(d + 2 as int) =~= c@.subrange(ai + d + 2, pos as int));
                Some(continue_numbered(&c, pos, ls, ai, d, n, cursor_char))
            } else {
                assert(numbered_prefix(a) is None);
                None
            }
        },
    }
}

fn continue_bullet(
    c: &Vec<char>,
    pos: usize,
    ls: usize,
    ai: usize,
    marker: &Vec<char>,
    k: usize,
    cursor_char: usize,
) -> (r: ActionResult)
    requires
        pos == clamp(cursor_char as int, c@.len() as int),
        ls == line_start(c@, pos as int),
        ai == ls + indent_len(c@.subrange(ls as int, pos as int)),
        ai <= pos,
        k <= pos - ai,
        marker@.len() <= k,
        cursor_char + c@.len() + 16 <= usize::MAX,
    ensures
        ({
            let indent = c@.subrange(ls as int, ai as int);
            if ai + k == pos {
                let p = cursor_char - ((ai - ls) + marker@.len());
                r@ == (c@.take(ls as int) + c@.skip(pos as int), p, p)
            } else {
                let ins = seq!['\n'] + indent + marker@;
                r@ == (c@.take(pos as int) + ins + c@.skip(pos as int), cursor_char + ins.len(),
                    cursor_char + ins.len())
            }
        }),
{
    if ai + k == pos {
        let mut out: Vec<char> = Vec::new();
        extend_range(&mut out, c, 0, ls);
        extend_range(&mut out, c, pos, c.len());
        assert(out@ =~= c@.take(ls as int) + c@.skip(pos as int));
        let removed = (ai - ls) + marker.len();
        let p = cursor_char - removed;
        ActionResult { new_content: string_of(&out), new_cursor_start: p, new_cursor_end: p }
    } else {
        let mut out: Vec<char> = Vec::new();
        extend_range(&mut out, c, 0, pos);
        out.push('\n');
        extend_range(&mut out, c, ls, ai);
        extend_all(&mut out, marker);
        let ins_len = 1 + (ai - ls) + marker.len();
        extend_range(&mut out, c, pos, c.len());
        let ghost ins = seq!['\n'] + c@.subrange(ls as int, ai as int) + marker@;
        assert(out@ =~= c@.take(pos as int) + ins + c@.skip(pos as int));
        let p = cursor_char + ins_len;
        ActionResult { new_content: string_of(&out), new_cursor_start: p, new_cursor_end: p }
    }
}

fn continue_numbered(
    c: &Vec<char>,
    pos: usize,
    ls: usize,
    ai: usize,
    d: usize,
    n: u32,
    cursor_char: usize,
) -> (r: ActionResult)
    requires
        pos == clamp(cursor_char as int, c@.len() as int),
        ls == line_start(c@, pos as int),
        ai == ls + indent_len(c@.subrange(ls as int, pos as int)),
        ai <= pos,
        0 < d,
        ai + d + 2 <= pos,
        forall|k: int| ai <= k < ai + d ==> is_digit(#[trigger] c@[k]),
        n == parse_u32_or_zero(c@.subrange(ai as int, ai + d)),
        ai + d + 2 < pos ==> n < u32::MAX,
        cursor_char + c@.len() + 16 <= usize::MAX,
    ensures
        ({
            let indent = c@.subrange(ls as int, ai as int);
            if ai + d + 2 == pos {
                let p = cursor_char - ((ai - ls) + d + 2);
                r@ == (c@.take(ls as int) + c@.skip(pos as int), p, p)
            } else {
                let ins = seq!['\n'] + indent + dec((n + 1) as nat) + seq!['.', ' '];
                r@ == (c@.take(pos as int) + ins + c@.skip(pos as int), cursor_char + ins.len(),
                    cursor_char + ins.len())
            }
        }),
{
    if ai + d + 2 == pos {
        let mut out: Vec<char> = Vec::new();
        extend_range(&mut out, c, 0, ls);
        extend_range(&mut out, c, pos, c.len());
        assert(out@ =~= c@.take(ls as int) + c@.skip(pos as int));
        let removed = (ai - ls) + d + 2;
        let p = cursor_char - removed;
        return ActionResult { new_content: string_of(&out), new_cursor_start: p, new_cursor_end: p };
    }
    let mut out: Vec<char> = Vec::new();
    extend_range(&mut out, c, 0, pos);
    let mark_start = out.len();
    out.push('\n');
    extend_range(&mut out, c, ls, ai);
    push_decimal(&mut out, (n + 1) as u64);
    out.push('.');
    out.push(' ');
    let ins_len = out.len() - mark_start;
    extend_range(&mut out, c, pos, c.len());
    let ghost ins = seq!['\n'] + c@.subrange(ls as int, ai as int) + dec((n + 1) as nat) + seq![
        '.',
        ' ',
    ];
    assert(out@ =~= c@.take(pos as int) + ins + c@.skip(pos as int));
    proof {
        lemma_dec_len_u32((n + 1) as nat);
    }
    let p = cursor_char + ins_len;
    ActionResult { new_content: string_of(&out), new_cursor_start: p, new_cursor_end: p }
}

/// A number up to `u32::MAX + 1` has at most 10 decimal digits.
pub proof fn lemma_dec_len_u32(n: nat)
    requires
        n <= 0x1_0000_0000,
    ensures
        dec(n).len() <= 10,
{
    reveal_with_fuel(pow10, 11);
    lemma_dec_len_bound(n, 10);
}

/// A number below `10^k` has at most `k` decimal digits.
pub proof fn lemma_dec_len_bound(n: nat, k: nat)
    requires
        k >= 1,
        n < pow10(k),
    ensures
        dec(n).len() <= k,
    decreases k,
{
    if n >= 10 {
        assert(k > 1) by {
            if k == 1 {
                assert(pow10(1) == 10) by {
                    assert(pow10(0) == 1);
                }
            }
        }
        assert(n / 10 < pow10((k - 1) as nat)) by (nonlinear_arith)
            requires
                n < pow10(k),
                pow10(k) == 10 * pow10((k - 1) as nat),
        ;
        lemma_dec_len_bound(n / 10, (k - 1) as nat);
    }
}

/// `10^k`.
pub open spec fn pow10(k: nat) -> nat
    decreases k,
{
    if k == 0 {
        1
    } else {
        10 * pow10((k - 1) as nat)
    }
}

/// The lines `c[block_start..block_end]` touched by the selection, moved one line up.
fn move_block_up(c: &Vec<char>, sel_start: usize, sel_end: usize, block_start: usize, block_end: usize)
    -> (r: Option<ActionResult>)
    requires
        move_lines_fits(c@, sel_start as int, sel_end as int),
        ({
            let (start, end) = ordered(sel_start as int, sel_end as int);
            region_bounds(c@, start, end) == (block_start as int, block_end as int)
        }),
        block_start <= block_end <= c@.len(),
    ensures
        opt_view(r) == move_lines_spec(c@, sel_start as int, sel_end as int, true),
{
    proof {
        let (start, end) = ordered(sel_start as int, sel_end as int);
        lemma_line_start(c@, clamp(start, c@.len() as int));
        lemma_line_end(c@, clamp(end, c@.len() as int));
    }
    if block_start == 0 {
        return None;
    }
    let prev_line_start = line_start_exec(c, block_start - 1);
    proof {
        lemma_line_start(c@, block_start - 1);
    }
    let ghost prev_line = c@.subrange(prev_line_start as int, block_start as int);
    let mut out: Vec<char> = Vec::new();
    extend_range(&mut out, c, 0, prev_line_start);
    extend_range(&mut out, c, block_start, block_end);
    out.push('\n');
    extend_range(&mut out, c, prev_line_start, block_start - 1);
    extend_range(&mut out, c, block_end, c.len());
    assert(prev_line.last() == '\n');
    assert(strip_newline(prev_line) =~= c@.subrange(prev_line_start as int, block_start - 1));
    assert(out@ =~= c@.take(prev_line_start as int) + c@.subrange(block_start as int, block_end as int)
        + seq!['\n'] + strip_newline(prev_line) + c@.skip(block_end as int));
    let shift_chars = (block_start - prev_line_start) as i64;
    let ns = sel_start as i64 - shift_chars;
    let ne = sel_end as i64 - shift_chars;
    let new_start: i64 = if ns >= 0 {
        ns
    } else {
        0
    };
    let new_end: i64 = if ne >= 0 {
        ne
    } else {
        0
    };
    Some(ActionResult {
        new_content: string_of(&out),
        new_cursor_start: new_start as usize,
        new_cursor_end: new_end as usize,
    })
}

/// The lines `c[block_start..block_end]` touched by the selection, moved one line down.
fn move_block_down(c: &Vec<char>, sel_start: usize, sel_end: usize, block_start: usize, block_end: usize)
    -> (r: Option<ActionResult>)
    requires
        move_lines_fits(c@, sel_start as int, sel_end as int),
        ({
            let (start, end) = ordered(sel_start as int, sel_end as int);
            region_bounds(c@, start, end) == (block_start as int, block_end as int)
        }),
        block_start <= block_end <= c@.len(),
    ensures
        opt_view(r) == move_lines_spec(c@, sel_start as int, sel_end as int, false),
{
    proof {
        let (start, end) = ordered(sel_start as int, sel_end as int);
        lemma_line_start(c@, clamp(start, c@.len() as int));
        lemma_line_end(c@, clamp(end, c@.len() as int));
    }
    if block_end >= c.len() {
        return None;
    }
    let next_line_end = line_end_exec(c, block_end + 1);
    proof {
        lemma_line_end(c@, block_end + 1);
    }
    let mut out: Vec<char> = Vec::new();
    extend_range(&mut out, c, 0, block_start);
    extend_range(&mut out, c, block_end + 1, next_line_end);
    out.push('\n');
    extend_range(&mut out, c, block_start, block_end);
    extend_range(&mut out, c, next_line_end, c.len());
    assert(out@ =~= c@.take(block_start as int) + c@.subrange(block_end + 1, next_line_end as int)
        + seq!['\n'] + c@.subrange(block_start as int, block_end as int) + c@.skip(
        next_line_end as int,
    ));
    let shift_chars = (next_line_end - (block_end + 1)) + 1;
    Some(ActionResult {
        new_content: string_of(&out),
        new_cursor_start: sel_start + shift_chars,
        new_cursor_end: sel_end + shift_chars,
    })
}

/// Move current line (or selected lines) up or down. Returns updated content and selection.
pub fn move_lines(content: &str, sel_start: usize, sel_end: usize, up: bool) -> (r: Option<ActionResult>)
    requires
        move_lines_fits(content@, sel_start as int, sel_end as int),
    ensures
        opt_view(r) == move_lines_spec(content@, sel_start as int, sel_end as int, up),
{
    let (start, end) = if sel_start <= sel_end {
        (sel_start, sel_end)
    } else {
        (sel_end, sel_start)
    };
    let c = chars_of(content);
    let bs = clamp_index(&c, start);
    let be = clamp_index(&c, end);
    let block_start = line_start_exec(&c, bs);
    let block_end = line_end_exec(&c, be);
    proof {
        lemma_line_start(c@, bs as int);
        lemma_line_end(c@, be as int);
    }
    if up {
        move_block_up(&c, sel_start, sel_end, block_start, block_end)
    } else {
        move_block_down(&c, sel_start, sel_end, block_start, block_end)
    }
}

fn insert_table(c: &Vec<char>, start: usize, end: usize, rows: usize, cols: usize) -> (r:
    ActionResult)
    requires
        start <= end,
        start + table_text(rows as nat, cols as nat).len() <= usize::MAX,
    ensures
        r@ == insert_spec(c@, start as int, end as int, table_text(rows as nat, cols as nat)),
{
    proof {
        reveal_strlit(" Header");
        reveal_strlit(" |");
        reveal_strlit("--------|");
        reveal_strlit("        |");
        assert(" Header"@ =~= seq![' ', 'H', 'e', 'a', 'd', 'e', 'r']);
        assert(" |"@ =~= seq![' ', '|']);
        assert("--------|"@ =~= separator_cell());
        assert("        |"@ =~= blank_cell());
    }
    let mut table: Vec<char> = Vec::new();
    table.push('\n');
    table.push('|');
    // Header
    let mut k: usize = 0;
    while k < cols
        invariant
            k <= cols,
            table@ == seq!['\n', '|'] + header_cells(k as nat),
        decreases cols - k,
    {
        proof {
            reveal_strlit(" Header");
            reveal_strlit(" |");
            assert(" Header"@ =~= seq![' ', 'H', 'e', 'a', 'd', 'e', 'r']);
            assert(" |"@ =~= seq![' ', '|']);
        }
        extend_str(&mut table, " Header");
        push_decimal(&mut table, (k + 1) as u64);
        extend_str(&mut table, " |");
        assert(table@ =~= seq!['\n', '|'] + header_cells((k + 1) as nat));
        k = k + 1;
    }
    table.push('\n');
    // Separator
    table.push('|');
    let ghost head = table@;
    let mut k: usize = 0;
    while k < cols
        invariant
            k <= cols,
            table@ == head + repeat(separator_cell(), k as nat),
        decreases cols - k,
    {
        proof {
            reveal_strlit("--------|");
            assert("--------|"@ =~= separator_cell());
        }
        extend_str(&mut table, "--------|");
        assert(table@ =~= head + repeat(separator_cell(), (k + 1) as nat));
        k = k + 1;
    }
    table.push('\n');
    // Body rows
    let ghost top = table@;
    let ghost row = seq!['|'] + repeat(blank_cell(), cols as nat) + seq!['\n'];
    let mut r: usize = 0;
    while r < rows
        invariant
            r <= rows,
            row == seq!['|'] + repeat(blank_cell(), cols as nat) + seq!['\n'],
            table@ == top + repeat(row, r as nat),
        decreases rows - r,
    {
        let ghost row_start = table@;
        table.push('|');
        let mut k: usize = 0;
        while k < cols
            invariant
                k <= cols,
                table@ == row_start + seq!['|'] + repeat(blank_cell(), k as nat),
            decreases cols - k,
        {
            proof {
                reveal_strlit("        |");
                assert("        |"@ =~= blank_cell());
            }
            extend_str(&mut table, "        |");
            assert(table@ =~= row_start + seq!['|'] + repeat(blank_cell(), (k + 1) as nat));
            k = k + 1;
        }
        table.push('\n');
        assert(table@ =~= top + repeat(row, (r + 1) as nat));
        r = r + 1;
    }
    assert(table@ =~= table_text(rows as nat, cols as nat));
    insert_text(c, start, end, &table)
}


// ---------------------------------------------------------------------------
// Laws of tables and list continuation
// ---------------------------------------------------------------------------

/// How many times `c` occurs in `s`.
pub open spec fn count_char(s: Seq<char>, c: char) -> nat
    decreases s.len(),
{
    if s.len() == 0 {
        0
    } else {
        count_char(s.drop_last(), c) + if s.last() == c {
            1nat
        } else {
            0nat
        }
    }
}

proof fn lemma_count_concat(a: Seq<char>, b: Seq<char>, c: char)
    ensures
        count_char(a + b, c) == count_char(a, c) + count_char(b, c),
    decreases b.len(),
{
    if b.len() == 0 {
        assert(a + b =~= a);
    } else {
        lemma_count_concat(a, b.drop_last(), c);
        assert((a + b).drop_last() =~= a + b.drop_last());
    }
}

proof fn lemma_count_absent(s: Seq<char>, c: char)
    requires
        forall|i: int| 0 <= i < s.len() ==> s[i] != c,
    ensures
        count_char(s, c) == 0,
    decreases s.len(),
{
    if s.len() > 0 {
        lemma_count_absent(s.drop_last(), c);
    }
}

proof fn lemma_count_repeat(s: Seq<char>, n: nat, c: char)
    ensures
        count_char(repeat(s, n), c) == n * count_char(s, c),
    decreases n,
{
    if n > 0 {
        lemma_count_repeat(s, (n - 1) as nat, c);
        lemma_count_concat(repeat(s, (n - 1) as nat), s, c);
        let k: int = count_char(s, c) as int;
        let m: int = n - 1;
        assert(m * k + k == (m + 1) * k) by (nonlinear_arith);
        assert(repeat(s, n) == repeat(s, (n - 1) as nat) + s);
        assert(count_char(repeat(s, n), c) == m * k + k);
        assert(n * count_char(s, c) == (m + 1) * k);
    } else {
        assert(repeat(s, n) =~= Seq::<char>::empty());
    }
}

proof fn lemma_header_cells_one_line(k: nat)
    ensures
        count_char(header_cells(k), '\n') == 0,
    decreases k,
{
    if k > 0 {
        lemma_header_cells_one_line((k - 1) as nat);
        lemma_dec_len(k);
        let word = seq![' ', 'H', 'e', 'a', 'd', 'e', 'r'];
        let end = seq![' ', '|'];
        assert forall|i: int| 0 <= i < word.len() implies word[i] != '\n' by {
            assert(0 <= i < 7);
        }
        assert forall|i: int| 0 <= i < end.len() implies end[i] != '\n' by {
            assert(0 <= i < 2);
        }
        assert forall|i: int| 0 <= i < dec(k).len() implies dec(k)[i] != '\n' by {
            if dec(k)[i] == '\n' {
                assert(has_char(dec(k), '\n'));
            }
        }
        lemma_count_absent(word, '\n');
        lemma_count_absent(end, '\n');
        lemma_count_absent(dec(k), '\n');
        lemma_count_concat(header_cells((k - 1) as nat), word, '\n');
        lemma_count_concat(header_cells((k - 1) as nat) + word, dec(k), '\n');
        lemma_count_concat(header_cells((k - 1) as nat) + word + dec(k), end, '\n');
    }
}

/// The table skeleton that the toolbar inserts is a line break followed by `rows + 2`
/// lines, each ended by a line feed: the header, the separator and `rows` empty rows.  It
/// holds `rows + 3` line feeds, the first at its start and the last at its end.
pub proof fn lemma_table_lines(rows: nat, cols: nat)
    ensures
        count_char(table_text(rows, cols), '\n') == rows + 3,
        table_text(rows, cols)[0] == '\n',
        table_text(rows, cols).last() == '\n',
{
    let nl: Seq<char> = seq!['\n'];
    let nlbar: Seq<char> = seq!['\n', '|'];
    let bar: Seq<char> = seq!['|'];
    assert(count_char(Seq::<char>::empty(), '\n') == 0);
    assert(count_char(nl, '\n') == 1) by {
        assert(nl.drop_last() =~= Seq::<char>::empty());
        assert(nl.last() == '\n');
    }
    assert(count_char(nlbar, '\n') == 1) by {
        assert(nlbar.drop_last() =~= nl);
    }
    assert(count_char(bar, '\n') == 0) by {
        assert(bar.drop_last() =~= Seq::<char>::empty());
        assert(bar.last() == '|');
    }
    assert forall|i: int| 0 <= i < separator_cell().len() implies separator_cell()[i] != '\n' by {
        assert(0 <= i < 9);
    }
    assert forall|i: int| 0 <= i < blank_cell().len() implies blank_cell()[i] != '\n' by {
        assert(0 <= i < 9);
    }
    lemma_count_absent(separator_cell(), '\n');
    lemma_count_absent(blank_cell(), '\n');
    lemma_header_cells_one_line(cols);
    lemma_count_repeat(separator_cell(), cols, '\n');
    lemma_count_repeat(blank_cell(), cols, '\n');
    let row = bar + repeat(blank_cell(), cols) + nl;
    lemma_count_concat(bar, repeat(blank_cell(), cols), '\n');
    lemma_count_concat(bar + repeat(blank_cell(), cols), nl, '\n');
    assert(count_char(row, '\n') == 1);
    lemma_count_repeat(row, rows, '\n');
    assert(rows * 1 == rows);
    let h = nlbar + header_cells(cols);
    lemma_count_concat(nlbar, header_cells(cols), '\n');
    lemma_count_concat(h, nlbar, '\n');
    lemma_count_concat(h + nlbar, repeat(separator_cell(), cols), '\n');
    lemma_count_concat(h + nlbar + repeat(separator_cell(), cols), nl, '\n');
    lemma_count_concat(h + nlbar + repeat(separator_cell(), cols) + nl, repeat(row, rows), '\n');
    assert(table_text(rows, cols) == h + nlbar + repeat(separator_cell(), cols) + nl + repeat(row, rows));
    if rows == 0 {
        assert(repeat(row, rows) =~= Seq::<char>::empty());
        assert(table_text(rows, cols) =~= h + nlbar + repeat(separator_cell(), cols) + nl);
    } else {
        assert(repeat(row, rows) == repeat(row, (rows - 1) as nat) + row);
    }
}


/// The toolbar's table button replaces the selection by the skeleton: the text gains the
/// skeleton's `rows + 3` line feeds and loses those of the selection, and the cursor lands
/// at the end of the skeleton.
pub proof fn lemma_apply_table_lines(c: Seq<char>, s: int, e: int, rows: usize, cols: usize)
    requires
        0 <= s <= c.len(),
        0 <= e <= c.len(),
    ensures
        ({
            let (lo, hi) = ordered(s, e);
            let r = apply_spec(EditorAction::Table { rows, cols }, c, s, e);
            &&& count_char(r.0, '\n') == count_char(c.take(lo), '\n') + rows + 3 + count_char(
                c.skip(hi),
                '\n',
            )
            &&& r.0.take(lo) == c.take(lo)
            &&& r.0.skip(r.1) == c.skip(hi)
            &&& r.1 == r.2
        }),
{
    let (lo, hi) = ordered(s, e);
    let t = table_text(rows as nat, cols as nat);
    lemma_table_lines(rows as nat, cols as nat);
    lemma_count_concat(c.take(lo), t, '\n');
    lemma_count_concat(c.take(lo) + t, c.skip(hi), '\n');
    let r = apply_spec(EditorAction::Table { rows, cols }, c, s, e);
    assert(r.0 == c.take(lo) + t + c.skip(hi));
    assert(r.0.take(lo) =~= c.take(lo));
    assert(r.0.skip(r.1) =~= c.skip(hi));
}


proof fn lemma_indent_len_exact(s: Seq<char>, k: int)
    requires
        0 <= k < s.len(),
        forall|j: int| 0 <= j < k ==> s[j] == ' ' || s[j] == '\t',
        s[k] != ' ' && s[k] != '\t',
    ensures
        indent_len(s) == k,
    decreases k,
{
    if k > 0 {
        assert forall|j: int| 0 <= j < k - 1 implies s.drop_first()[j] == ' ' || s.drop_first()[j]
            == '\t' by {
            assert(s.drop_first()[j] == s[j + 1]);
        }
        lemma_indent_len_exact(s.drop_first(), k - 1);
    }
}

/// Enter at the end of a non-empty bullet or quote item continues the list: a line break,
/// the item's indent and the same marker (`- `, `* `, `+ ` or `> `) go in at the cursor,
/// the cursor ends up after them, and the text around is kept.  (An item `- [ ] `,
/// `- [x] ` or `- [X] ` is a task, which continues with an open task instead.)
pub proof fn lemma_enter_continues_bullet(c: Seq<char>, cursor: int, ls: int, w: int, m: Seq<char>)
    requires
        0 <= ls <= w,
        w + 2 < cursor <= c.len(),
        ls == 0 || c[ls - 1] == '\n',
        forall|j: int| ls <= j < w ==> c[j] == ' ' || c[j] == '\t',
        forall|j: int| w <= j < cursor ==> c[j] != '\n',
        m == seq!['-', ' '] || m == seq!['*', ' '] || m == seq!['+', ' '] || m == seq!['>', ' '],
        c[w] == m[0],
        c[w + 1] == m[1],
        m == seq!['-', ' '] ==> !(cursor >= w + 6 && c[w + 2] == '[' && (c[w + 3] == ' ' || c[w + 3]
            == 'x' || c[w + 3] == 'X') && c[w + 4] == ']' && c[w + 5] == ' '),
    ensures
        continue_list_spec(c, cursor) == Some(
            (
                c.take(cursor) + seq!['\n'] + c.subrange(ls, w) + m + c.skip(cursor),
                cursor + 1 + (w - ls) + 2,
                cursor + 1 + (w - ls) + 2,
            ),
        ),
{
    lemma_line_start_unique(c, cursor, ls);
    let line = c.subrange(ls, cursor);
    assert forall|j: int| 0 <= j < w - ls implies line[j] == ' ' || line[j] == '\t' by {
        assert(line[j] == c[ls + j]);
    }
    assert(line[w - ls] == c[w]);
    lemma_indent_len_exact(line, w - ls);
    let a = line.skip(w - ls);
    assert(a =~= c.subrange(w, cursor));
    assert(a[0] == m[0] && a[1] == m[1]);
    if starts_with(a, task_open()) || starts_with(a, task_done_lower()) || starts_with(a, task_done_upper()) {
        let t = a.take(6);
        assert(t[0] == a[0] && t[2] == a[2] && t[3] == a[3] && t[4] == a[4] && t[5] == a[5]);
        assert(m == seq!['-', ' ']);
        assert(c[w + 2] == a[2] && c[w + 3] == a[3] && c[w + 4] == a[4] && c[w + 5] == a[5]);
    }
    let two = a.take(2);
    assert(two[0] == m[0] && two[1] == m[1]);
    assert(two =~= m);
    assert(starts_with(a, m));
    if m != seq!['-', ' '] {
        assert(!starts_with(a, seq!['-', ' '])) by {
            if starts_with(a, seq!['-', ' ']) {
                assert(two =~= seq!['-', ' ']);
            }
        }
    }
    if m != seq!['*', ' '] {
        assert(!starts_with(a, seq!['*', ' '])) by {
            if starts_with(a, seq!['*', ' ']) {
                assert(two =~= seq!['*', ' ']);
            }
        }
    }
    if m != seq!['+', ' '] {
        assert(!starts_with(a, seq!['+', ' '])) by {
            if starts_with(a, seq!['+', ' ']) {
                assert(two =~= seq!['+', ' ']);
            }
        }
    }
    assert(bullet_continuation(a) == Some((m, a.skip(2))));
    assert(a.skip(2).len() > 0);
    assert(line.take(w - ls) =~= c.subrange(ls, w));
}


proof fn lemma_digit_run_exact(s: Seq<char>, k: int)
    requires
        0 <= k < s.len(),
        forall|j: int| 0 <= j < k ==> is_digit(s[j]),
        !is_digit(s[k]),
    ensures
        digit_run(s) == k,
    decreases k,
{
    if k > 0 {
        assert forall|j: int| 0 <= j < k - 1 implies is_digit(s.drop_first()[j]) by {
            assert(s.drop_first()[j] == s[j + 1]);
        }
        lemma_digit_run_exact(s.drop_first(), k - 1);
    }
}

/// Enter right after the marker of an empty numbered item (`N. ` with nothing after it)
/// ends the list: the item's indent and marker are removed, whatever the number's digits,
/// and the cursor goes to where the line started.
pub proof fn lemma_enter_on_empty_numbered_item(c: Seq<char>, cursor: int, ls: int, w: int, d: int)
    requires
        0 <= ls <= w,
        d >= 1,
        cursor == w + d + 2,
        cursor <= c.len(),
        ls == 0 || c[ls - 1] == '\n',
        forall|j: int| ls <= j < w ==> c[j] == ' ' || c[j] == '\t',
        forall|j: int| w <= j < w + d ==> is_digit(c[j]),
        c[w + d] == '.',
        c[w + d + 1] == ' ',
    ensures
        continue_list_spec(c, cursor) == Some((c.take(ls) + c.skip(cursor), ls, ls)),
{
    assert forall|j: int| ls <= j < cursor implies c[j] != '\n' by {
        if w <= j < w + d {
            assert(is_digit(c[j]));
        }
    }
    lemma_line_start_unique(c, cursor, ls);
    let line = c.subrange(ls, cursor);
    assert forall|j: int| 0 <= j < w - ls implies line[j] == ' ' || line[j] == '\t' by {
        assert(line[j] == c[ls + j]);
    }
    assert(line[w - ls] == c[w]);
    assert(is_digit(c[w]));
    lemma_indent_len_exact(line, w - ls);
    let a = line.skip(w - ls);
    assert(a =~= c.subrange(w, cursor));
    assert(is_digit(a[0]));
    if starts_with(a, task_open()) || starts_with(a, task_done_lower()) || starts_with(a, task_done_upper())
        || starts_with(a, seq!['-', ' ']) || starts_with(a, seq!['*', ' ']) || starts_with(a, seq![
        '+',
        ' ',
    ]) || starts_with(a, seq!['>', ' ']) {
        assert(a.take(1)[0] == a[0]);
    }
    assert(bullet_continuation(a) is None);
    assert forall|j: int| 0 <= j < d implies is_digit(a[j]) by {
        assert(a[j] == c[w + j]);
    }
    assert(a[d] == '.');
    lemma_digit_run_exact(a, d);
    assert(digit_end(a) == d);
    assert(a.skip(d).take(2) =~= seq!['.', ' ']);
    assert(numbered_prefix(a) == Some(d as nat));
    assert(a.skip(d + 2).len() == 0);
}


/// Enter at the end of a non-empty numbered item `N. ...` continues the list with the next
/// number: a line break, the item's indent and `N+1. ` go in at the cursor, the cursor ends
/// up after them, and the text around is kept.
pub proof fn lemma_enter_continues_numbered(c: Seq<char>, cursor: int, ls: int, w: int, d: int)
    requires
        0 <= ls <= w,
        d >= 1,
        w + d + 2 < cursor <= c.len(),
        ls == 0 || c[ls - 1] == '\n',
        forall|j: int| ls <= j < w ==> c[j] == ' ' || c[j] == '\t',
        forall|j: int| w <= j < w + d ==> is_digit(c[j]),
        c[w + d] == '.',
        c[w + d + 1] == ' ',
        forall|j: int| w + d + 2 <= j < cursor ==> c[j] != '\n',
        digits_value(c.subrange(w, w + d)) < u32::MAX,
    ensures
        ({
            let ins = seq!['\n'] + c.subrange(ls, w) + dec(digits_value(c.subrange(w, w + d)) + 1)
                + seq!['.', ' '];
            continue_list_spec(c, cursor) == Some(
                (c.take(cursor) + ins + c.skip(cursor), cursor + ins.len(), cursor + ins.len()),
            )
        }),
{
    assert forall|j: int| ls <= j < cursor implies c[j] != '\n' by {
        if w <= j < w + d {
            assert(is_digit(c[j]));
        }
    }
    lemma_line_start_unique(c, cursor, ls);
    let line = c.subrange(ls, cursor);
    assert forall|j: int| 0 <= j < w - ls implies line[j] == ' ' || line[j] == '\t' by {
        assert(line[j] == c[ls + j]);
    }
    assert(line[w - ls] == c[w]);
    assert(is_digit(c[w]));
    lemma_indent_len_exact(line, w - ls);
    let a = line.skip(w - ls);
    assert(a =~= c.subrange(w, cursor));
    assert(is_digit(a[0]));
    if starts_with(a, task_open()) || starts_with(a, task_done_lower()) || starts_with(a, task_done_upper())
        || starts_with(a, seq!['-', ' ']) || starts_with(a, seq!['*', ' ']) || starts_with(a, seq![
        '+',
        ' ',
    ]) || starts_with(a, seq!['>', ' ']) {
        assert(a.take(1)[0] == a[0]);
    }
    assert(bullet_continuation(a) is None);
    assert forall|j: int| 0 <= j < d implies is_digit(a[j]) by {
        assert(a[j] == c[w + j]);
    }
    assert(a[d] == '.');
    lemma_digit_run_exact(a, d);
    assert(digit_end(a) == d);
    assert(a.skip(d).take(2) =~= seq!['.', ' ']);
    assert(numbered_prefix(a) == Some(d as nat));
    assert(a.take(d) =~= c.subrange(w, w + d));
    assert(a.skip(d + 2).len() > 0);
    assert(line.take(w - ls) =~= c.subrange(ls, w));
}


/// Enter right after the marker of an empty bullet or quote item (`- `, `* `, `+ ` or `> `
/// with nothing after it) ends the list: the item's indent and marker are removed and the
/// cursor goes to where the line started.
pub proof fn lemma_enter_on_empty_bullet_item(c: Seq<char>, cursor: int, ls: int, w: int, m: Seq<char>)
    requires
        0 <= ls <= w,
        cursor == w + 2,
        cursor <= c.len(),
        ls == 0 || c[ls - 1] == '\n',
        forall|j: int| ls <= j < w ==> c[j] == ' ' || c[j] == '\t',
        m == seq!['-', ' '] || m == seq!['*', ' '] || m == seq!['+', ' '] || m == seq!['>', ' '],
        c[w] == m[0],
        c[w + 1] == m[1],
    ensures
        continue_list_spec(c, cursor) == Some((c.take(ls) + c.skip(cursor), ls, ls)),
{
    lemma_line_start_unique(c, cursor, ls);
    let line = c.subrange(ls, cursor);
    assert forall|j: int| 0 <= j < w - ls implies line[j] == ' ' || line[j] == '\t' by {
        assert(line[j] == c[ls + j]);
    }
    assert(line[w - ls] == c[w]);
    lemma_indent_len_exact(line, w - ls);
    let a = line.skip(w - ls);
    assert(a =~= c.subrange(w, cursor));
    assert(a.len() == 2);
    let two = a.take(2);
    assert(two =~= m);
    if m != seq!['-', ' '] {
        assert(!starts_with(a, seq!['-', ' '])) by {
            if starts_with(a, seq!['-', ' ']) {
                assert(two =~= seq!['-', ' ']);
            }
        }
    }
    if m != seq!['*', ' '] {
        assert(!starts_with(a, seq!['*', ' '])) by {
            if starts_with(a, seq!['*', ' ']) {
                assert(two =~= seq!['*', ' ']);
            }
        }
    }
    if m != seq!['+', ' '] {
        assert(!starts_with(a, seq!['+', ' '])) by {
            if starts_with(a, seq!['+', ' ']) {
                assert(two =~= seq!['+', ' ']);
            }
        }
    }
    assert(bullet_continuation(a) == Some((m, a.skip(2))));
}

} // verus!
