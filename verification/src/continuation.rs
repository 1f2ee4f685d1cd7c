//! List continuation in the editor: after Enter ends a list item, the next line gets the
//! same marker (the next number for a numbered item); Enter on an empty item ends the list.
use vstd::prelude::*;
use crate::editor_actions::{
    bullet_at, bullet_continuation, digit_run_exec, indent_end, indent_len, lemma_dec_len_u32,
    numbered_prefix, starts_at,
};
use crate::text::{
    chars_of, dec, extend_range, lemma_line_start, line_start, line_start_exec,
    parse_u32_digits, parse_u32_or_zero, push_decimal, string_of, trim, trim_bounds,
};

verus! {

/// What a list line tells about the line that follows it.
pub struct ListMarkerInfo {
    /// The line's leading spaces and tabs.
    pub indent: String,
    /// The marker the next line starts with.
    pub next_marker: String,
    /// The item has no text after its marker.
    pub content_empty: bool,
}

/// A marker description as plain values: indent, next marker, empty item.
pub type MarkerView = (Seq<char>, Seq<char>, bool);

impl View for ListMarkerInfo {
    type V = MarkerView;

    open spec fn view(&self) -> MarkerView {
        (self.indent@, self.next_marker@, self.content_empty)
    }
}

/// The list marker of `line`, if it is a list item: `- [ ] `, `- [x] `, `- [X] ` (continued
/// as an open task), `- `, `* `, `+ `, `> `, or `N. ` (continued as `N+1. `).
pub open spec fn marker_spec(line: Seq<char>) -> Option<MarkerView> {
    let il = indent_len(line);
    let indent = line.take(il as int);
    let a = line.skip(il as int);
    match bullet_continuation(a) {
        Some((m, rest)) => Some((indent, m, trim(rest).len() == 0)),
        None => match numbered_prefix(a) {
            Some(d) => Some(
                (
                    indent,
                    dec(parse_u32_or_zero(a.take(d as int)) + 1) + seq!['.', ' '],
                    trim(a.skip(d + 2 as int)).len() == 0,
                ),
            ),
            None => None,
        },
    }
}

/// The item number of `line`, if it is numbered, leaves room for the next number in `u32`.
pub open spec fn marker_fits(line: Seq<char>) -> bool {
    let a = line.skip(indent_len(line) as int);
    bullet_continuation(a) is None ==> match numbered_prefix(a) {
        Some(d) => parse_u32_or_zero(a.take(d as int)) < u32::MAX,
        None => true,
    }
}

/// The marker of the line `v[from..to]`: the end of its indent, the next marker and
/// whether the item is empty.
fn marker_in(v: &Vec<char>, from: usize, to: usize) -> (r: Option<(usize, Vec<char>, bool)>)
    requires
        from <= to <= v@.len(),
        marker_fits(v@.subrange(from as int, to as int)),
    ensures
        ({
            let line = v@.subrange(from as int, to as int);
            match r {
                Some((ie, m, empty)) => from <= ie <= to && marker_spec(line) == Some(
                    (v@.subrange(from as int, ie as int), m@, empty),
                ),
                None => marker_spec(line) is None,
            }
        }),
{
    let ghost line = v@.subrange(from as int, to as int);
    let ie = indent_end(v, from, to);
    let ghost a = v@.subrange(ie as int, to as int);
    proof {
        assert(line.take(indent_len(line) as int) =~= v@.subrange(from as int, ie as int));
        assert(line.skip(indent_len(line) as int) =~= a);
    }
    match bullet_at(v, ie, to) {
        Some((m, k)) => {
            let (x, y) = trim_bounds(v, ie + k, to);
            assert(a.skip(k as int) =~= v@.subrange(ie + k, to as int));
            Some((ie, m, x == y))
        },
        None => {
            let d = digit_run_exec(v, ie, to);
            let dot = vec!['.', ' '];
            assert(dot@ =~= seq!['.', ' ']);
            if d > 0 && d < to - ie && starts_at(v, ie + d, to, &dot) {
                proof {
                    assert(a.skip(d as int) =~= v@.subrange(ie + d, to as int));
                    assert(a.take(d as int) =~= v@.subrange(ie as int, ie + d));
                    assert(numbered_prefix(a) == Some(d as nat));
                }
                let n: u32 = match parse_u32_digits(v, ie, ie + d) {
                    Some(n) => n,
                    None => 0,
                };
                let mut m: Vec<char> = Vec::new();
                push_decimal(&mut m, (n + 1) as u64);
                m.push('.');
                m.push(' ');
                let (x, y) = trim_bounds(v, ie + d + 2, to);
                assert(a.skip(d + 2 as int) =~= v@.subrange(ie + d + 2, to as int));
                Some((ie, m, x == y))
            } else {
                proof {
                    if d > 0 && d < to - ie {
                        assert(a.skip(d as int) =~= v@.subrange(ie + d, to as int));
                    }
                }
                None
            }
        },
    }
}

/// The list marker of `line`, if it is a list item (see `marker_spec`).
pub fn detect_list_marker(line: &str) -> (r: Option<ListMarkerInfo>)
    requires
        marker_fits(line@),
    ensures
        match r {
            Some(info) => marker_spec(line@) == Some(info@),
            None => marker_spec(line@) is None,
        },
{
    let v = chars_of(line);
    assert(v@.subrange(0, v@.len() as int) =~= line@);
    match marker_in(&v, 0, v.len()) {
        Some((ie, m, empty)) => Some(
            ListMarkerInfo {
                indent: crate::text::string_of_range(&v, 0, ie),
                next_marker: string_of(&m),
                content_empty: empty,
            },
        ),
        None => None,
    }
}

/// The text and cursor after a line break was typed at `cursor - 1` of `c`, when the line
/// it ended is a list item: an empty item is removed together with the break (ending the
/// list); otherwise the new line starts with the item's indent and next marker.
pub open spec fn after_enter_spec(c: Seq<char>, cursor: int) -> Option<(Seq<char>, int)> {
    if 0 < cursor <= c.len() && c[cursor - 1] == '\n' {
        let ps = line_start(c, cursor - 1);
        match marker_spec(c.subrange(ps, cursor - 1)) {
            Some((indent, m, empty)) => if empty {
                Some((c.take(ps) + c.skip(cursor), ps))
            } else {
                let ins = indent + m;
                Some((c.take(cursor) + ins + c.skip(cursor), cursor + ins.len()))
            },
            None => None,
        }
    } else {
        None
    }
}

/// The line before the break at `cursor - 1`, if numbered, leaves room for the next number.
pub open spec fn after_enter_fits(c: Seq<char>, cursor: int) -> bool {
    0 < cursor <= c.len() && c[cursor - 1] == '\n' ==> marker_fits(
        c.subrange(line_start(c, cursor - 1), cursor - 1),
    )
}

/// A text and cursor result seen as plain values.
pub open spec fn edit_view(r: Option<(String, usize)>) -> Option<(Seq<char>, int)> {
    match r {
        Some((s, p)) => Some((s@, p as int)),
        None => None,
    }
}

/// Continues or ends a list after Enter: `cursor` is the character index just after the
/// line break that was typed.  `None` when the ended line is no list item.
pub fn continue_after_enter(content: &str, cursor: usize) -> (r: Option<(String, usize)>)
    requires
        after_enter_fits(content@, cursor as int),
        2 * content@.len() + 16 <= usize::MAX,
    ensures
        edit_view(r) == after_enter_spec(content@, cursor as int),
{
    let c = chars_of(content);
    let n = c.len();
    if cursor == 0 || cursor > n || c[cursor - 1] != '\n' {
        return None;
    }
    let ps = line_start_exec(&c, cursor - 1);
    proof {
        lemma_line_start(c@, cursor - 1);
    }
    match marker_in(&c, ps, cursor - 1) {
        Some((ie, m, empty)) => {
            let mut out: Vec<char> = Vec::new();
            if empty {
                extend_range(&mut out, &c, 0, ps);
                extend_range(&mut out, &c, cursor, n);
                assert(out@ =~= c@.take(ps as int) + c@.skip(cursor as int));
                Some((string_of(&out), ps))
            } else {
                extend_range(&mut out, &c, 0, cursor);
                extend_range(&mut out, &c, ps, ie);
                extend_range(&mut out, &m, 0, m.len());
                proof {
                    assert(m@.subrange(0, m@.len() as int) =~= m@);
                    assert(m@.len() <= 12) by {
                        lemma_next_marker_len(c@.subrange(ps as int, cursor - 1));
                    }
                }
                let pos = cursor + (ie - ps) + m.len();
                extend_range(&mut out, &c, cursor, n);
                assert(out@ =~= c@.take(cursor as int) + (c@.subrange(ps as int, ie as int) + m@)
                    + c@.skip(cursor as int));
                Some((string_of(&out), pos))
            }
        },
        None => None,
    }
}

/// Whether the line `v[from..to]`, if numbered, leaves room for the next number.
fn marker_fits_in(v: &Vec<char>, from: usize, to: usize) -> (b: bool)
    requires
        from <= to <= v@.len(),
    ensures
        b == marker_fits(v@.subrange(from as int, to as int)),
{
    let ghost line = v@.subrange(from as int, to as int);
    let ie = indent_end(v, from, to);
    let ghost a = v@.subrange(ie as int, to as int);
    assert(line.skip(indent_len(line) as int) =~= a);
    if bullet_at(v, ie, to).is_some() {
        return true;
    }
    let d = digit_run_exec(v, ie, to);
    let dot = vec!['.', ' '];
    assert(dot@ =~= seq!['.', ' ']);
    if d > 0 && d < to - ie && starts_at(v, ie + d, to, &dot) {
        proof {
            assert(a.skip(d as int) =~= v@.subrange(ie + d, to as int));
            assert(a.take(d as int) =~= v@.subrange(ie as int, ie + d));
            assert(numbered_prefix(a) == Some(d as nat));
        }
        match parse_u32_digits(v, ie, ie + d) {
            Some(n) => n < u32::MAX,
            None => true,
        }
    } else {
        proof {
            if d > 0 && d < to - ie {
                assert(a.skip(d as int) =~= v@.subrange(ie + d, to as int));
            }
        }
        true
    }
}

/// Whether `continue_after_enter` can handle `content` and `cursor`: the ended line, if
/// numbered, leaves room for the next number (`after_enter_fits`).
pub fn list_continuation_fits(content: &str, cursor: usize) -> (b: bool)
    ensures
        b == after_enter_fits(content@, cursor as int),
{
    let c = chars_of(content);
    if cursor == 0 || cursor > c.len() || c[cursor - 1] != '\n' {
        return true;
    }
    let ps = line_start_exec(&c, cursor - 1);
    proof {
        lemma_line_start(c@, cursor - 1);
    }
    marker_fits_in(&c, ps, cursor - 1)
}

/// A continued marker is at most twelve characters long.
pub proof fn lemma_next_marker_len(line: Seq<char>)
    ensures
        marker_spec(line) matches Some((_, m, _)) ==> m.len() <= 12,
{
    let a = line.skip(indent_len(line) as int);
    if bullet_continuation(a) is None {
        if let Some(d) = numbered_prefix(a) {
            let n = parse_u32_or_zero(a.take(d as int));
            lemma_dec_len_u32((n + 1) as nat);
        }
    }
}

// ---------------------------------------------------------------------------
// Laws
// ---------------------------------------------------------------------------

/// A space or a tab.
pub open spec fn is_blank(c: char) -> bool {
    c == ' ' || c == '\t'
}

proof fn lemma_indent_blank(s: Seq<char>)
    ensures
        indent_len(s) <= s.len(),
        forall|k: int| 0 <= k < indent_len(s) ==> is_blank(#[trigger] s[k]),
    decreases s.len(),
{
    if s.len() > 0 && is_blank(s[0]) {
        lemma_indent_blank(s.drop_first());
        assert forall|k: int| 0 <= k < indent_len(s) implies is_blank(#[trigger] s[k]) by {
            if k > 0 {
                assert(s[k] == s.drop_first()[k - 1]);
            }
        }
    }
}

proof fn lemma_indent_of_concat(p: Seq<char>, q: Seq<char>)
    requires
        forall|k: int| 0 <= k < p.len() ==> is_blank(#[trigger] p[k]),
        q.len() > 0,
        !is_blank(q[0]),
    ensures
        indent_len(p + q) == p.len(),
    decreases p.len(),
{
    if p.len() == 0 {
        assert(p + q =~= q);
    } else {
        assert((p + q).drop_first() =~= p.drop_first() + q);
        lemma_indent_of_concat(p.drop_first(), q);
    }
}

proof fn lemma_dec_digits(n: nat)
    ensures
        dec(n).len() >= 1,
        forall|k: int| 0 <= k < dec(n).len() ==> crate::text::is_digit(#[trigger] dec(n)[k]),
    decreases n,
{
    if n >= 10 {
        lemma_dec_digits(n / 10);
        let d = dec(n / 10);
        assert forall|k: int| 0 <= k < dec(n).len() implies crate::text::is_digit(#[trigger] dec(n)[k]) by {
            if k < d.len() {
                assert(dec(n)[k] == d[k]);
            }
        }
    }
}

proof fn lemma_digit_run_concat(p: Seq<char>, q: Seq<char>)
    requires
        forall|k: int| 0 <= k < p.len() ==> crate::text::is_digit(#[trigger] p[k]),
        q.len() > 0,
        !crate::text::is_digit(q[0]),
    ensures
        crate::editor_actions::digit_run(p + q) == p.len(),
    decreases p.len(),
{
    if p.len() == 0 {
        assert(p + q =~= q);
    } else {
        assert((p + q).drop_first() =~= p.drop_first() + q);
        lemma_digit_run_concat(p.drop_first(), q);
    }
}

/// The line that a continuation starts, its indent followed by the next marker, is a list
/// item of the same indent with nothing after its marker: pressing Enter again right away
/// ends the list instead of continuing it.
pub proof fn lemma_continued_line_is_empty_item(line: Seq<char>)
    requires
        marker_spec(line) is Some,
    ensures
        ({
            let (indent, m, _) = marker_spec(line)->0;
            marker_spec(indent + m) matches Some((i2, _, empty)) && i2 == indent && empty
        }),
{
    let il = indent_len(line);
    let indent = line.take(il as int);
    let a = line.skip(il as int);
    lemma_indent_blank(line);
    let m = (marker_spec(line)->0).1;
    let n = indent + m;
    match bullet_continuation(a) {
        Some((mk, _)) => {
            assert(m == mk);
            assert(m.len() >= 2 && !is_blank(m[0]));
            lemma_indent_of_concat(indent, m);
            assert(n.take(il as int) =~= indent);
            assert(n.skip(il as int) =~= m);
            assert(m.skip(m.len() as int) =~= Seq::<char>::empty());
            if m == crate::editor_actions::task_open() {
                assert(m.take(6) =~= m);
                assert(crate::text::starts_with(m, crate::editor_actions::task_open()));
                assert(m.skip(6) =~= Seq::<char>::empty());
            } else {
                assert(m.len() == 2);
                assert(!crate::text::starts_with(m, crate::editor_actions::task_open()));
                assert(!crate::text::starts_with(m, crate::editor_actions::task_done_lower()));
                assert(!crate::text::starts_with(m, crate::editor_actions::task_done_upper()));
                assert(m.take(2) =~= m);
                assert(m.skip(2) =~= Seq::<char>::empty());
            }
            assert(trim(Seq::<char>::empty()) =~= Seq::<char>::empty());
        },
        None => {
            let d = numbered_prefix(a)->0;
            let k = parse_u32_or_zero(a.take(d as int)) + 1;
            lemma_dec_digits(k);
            let ds = dec(k);
            assert(m == ds + seq!['.', ' ']);
            assert(crate::text::is_digit(m[0]));
            lemma_indent_of_concat(indent, m);
            assert(n.take(il as int) =~= indent);
            assert(n.skip(il as int) =~= m);
            assert(m.take(6) != crate::editor_actions::task_open() || m.len() < 6) by {
                if m.len() >= 6 {
                    assert(m.take(6)[0] == m[0]);
                }
            }
            assert(!crate::text::starts_with(m, crate::editor_actions::task_open()));
            assert(!crate::text::starts_with(m, crate::editor_actions::task_done_lower())) by {
                if m.len() >= 6 {
                    assert(m.take(6)[0] == m[0]);
                }
            }
            assert(!crate::text::starts_with(m, crate::editor_actions::task_done_upper())) by {
                if m.len() >= 6 {
                    assert(m.take(6)[0] == m[0]);
                }
            }
            assert(!crate::text::starts_with(m, seq!['-', ' '])) by {
                assert(m.take(2)[0] == m[0]);
            }
            assert(!crate::text::starts_with(m, seq!['*', ' '])) by {
                assert(m.take(2)[0] == m[0]);
            }
            assert(!crate::text::starts_with(m, seq!['+', ' '])) by {
                assert(m.take(2)[0] == m[0]);
            }
            assert(!crate::text::starts_with(m, seq!['>', ' '])) by {
                assert(m.take(2)[0] == m[0]);
            }
            assert(bullet_continuation(m) is None);
            lemma_digit_run_concat(ds, seq!['.', ' ']);
            assert(crate::editor_actions::digit_end(m) == ds.len());
            assert(m.skip(ds.len() as int) =~= seq!['.', ' ']);
            assert(m.skip(ds.len() as int).take(2) =~= seq!['.', ' ']);
            assert(numbered_prefix(m) == Some(ds.len()));
            assert(m.skip(ds.len() + 2 as int) =~= Seq::<char>::empty());
            assert(trim(Seq::<char>::empty()) =~= Seq::<char>::empty());
        },
    }
}

} // verus!
