//! Table of contents: the ATX headings (`# Title` … `###### Title`) of a note.
use vstd::prelude::*;
use crate::text::{
    chars_of, first_index, first_index_in, lemma_first_index, lemma_lead_white, lemma_trail_white, skip_white_backward,
    skip_white_forward, string_of_range, trim_end, trim_start,
};

verus! {

/// A heading of the table of contents.
#[derive(Clone, Debug)]
pub struct Heading {
    pub level: u8,
    pub text: String,
    /// Character index in the source where this heading line starts.
    pub char_offset: usize,
}

/// A heading as plain values: level, text and character offset.
pub type HeadingView = (int, Seq<char>, int);

impl View for Heading {
    type V = HeadingView;

    open spec fn view(&self) -> HeadingView {
        (self.level as int, self.text@, self.char_offset as int)
    }
}

/// Number of leading `c` of `s`.
pub open spec fn lead_run(s: Seq<char>, c: char) -> nat
    decreases s.len(),
{
    if s.len() > 0 && s[0] == c {
        1 + lead_run(s.drop_first(), c)
    } else {
        0
    }
}

/// Number of trailing `c` of `s`.
pub open spec fn trail_run(s: Seq<char>, c: char) -> nat
    decreases s.len(),
{
    if s.len() > 0 && s.last() == c {
        1 + trail_run(s.drop_last(), c)
    } else {
        0
    }
}

pub proof fn lemma_lead_run(s: Seq<char>, c: char)
    ensures
        lead_run(s, c) <= s.len(),
        lead_run(s, c) < s.len() ==> s[lead_run(s, c) as int] != c,
    decreases s.len(),
{
    if s.len() > 0 && s[0] == c {
        lemma_lead_run(s.drop_first(), c);
    }
}

pub proof fn lemma_trail_run(s: Seq<char>, c: char)
    ensures
        trail_run(s, c) <= s.len(),
    decreases s.len(),
{
    if s.len() > 0 && s.last() == c {
        lemma_trail_run(s.drop_last(), c);
    }
}

/// Index of the first character of `v[from..to]` that is not `c` (or `to`).
pub(crate) fn run_forward(v: &Vec<char>, from: usize, to: usize, c: char) -> (r: usize)
    requires
        from <= to <= v@.len(),
    ensures
        r == from + lead_run(v@.subrange(from as int, to as int), c),
{
    let mut i = from;
    while i < to && v[i] == c
        invariant
            from <= i <= to <= v@.len(),
            lead_run(v@.subrange(from as int, to as int), c) == (i - from) + lead_run(
                v@.subrange(i as int, to as int),
                c,
            ),
        decreases to - i,
    {
        assert(v@.subrange(i as int, to as int).drop_first() =~= v@.subrange(i + 1, to as int));
        i = i + 1;
    }
    i
}

/// Index one past the last character of `v[from..to]` that is not `c` (or `from`).
pub(crate) fn run_backward(v: &Vec<char>, from: usize, to: usize, c: char) -> (r: usize)
    requires
        from <= to <= v@.len(),
    ensures
        r == to - trail_run(v@.subrange(from as int, to as int), c),
{
    let mut j = to;
    while j > from && v[j - 1] == c
        invariant
            from <= j <= to <= v@.len(),
            trail_run(v@.subrange(from as int, to as int), c) == (to - j) + trail_run(
                v@.subrange(from as int, j as int),
                c,
            ),
        decreases j - from,
    {
        assert(v@.subrange(from as int, j as int).drop_last() =~= v@.subrange(
            from as int,
            j - 1,
        ));
        j = j - 1;
    }
    j
}

/// The level of an ATX heading line whose leading whitespace is already removed:
/// one to six `#` followed by a space.
pub open spec fn atx_spec(t: Seq<char>) -> Option<int> {
    let c = lead_run(t, '#');
    if 1 <= c <= 6 && c < t.len() && t[c as int] == ' ' {
        Some(c as int)
    } else {
        None
    }
}

/// The text of the heading line `t` (leading whitespace already removed): without its
/// opening and closing runs of `#` and without surrounding whitespace.
pub open spec fn heading_text(t: Seq<char>) -> Seq<char> {
    let a = trim_start(t.skip(lead_run(t, '#') as int));
    let b = trim_end(a);
    trim_end(b.take(b.len() - trail_run(b, '#')))
}

/// End of the line of `s` that starts at `i`, past its `'\n'` if it has one.
pub open spec fn line_after(s: Seq<char>, i: int) -> int {
    match first_index(s, '\n', i) {
        Some(j) => j + 1,
        None => s.len() as int,
    }
}

/// The headings of the lines of `s` from the line starting at `i` on.
pub open spec fn headings_from(s: Seq<char>, i: int) -> Seq<HeadingView>
    decreases s.len() - i,
{
    if i < 0 || i >= s.len() {
        seq![]
    } else {
        let e = line_after(s, i);
        proof {
            lemma_first_index(s, '\n', i);
        }
        let line = s.subrange(i, e);
        let t = trim_start(line);
        match atx_spec(t) {
            Some(level) => seq![(level, heading_text(t), i)]
                + headings_from(s, e),
            None => headings_from(s, e),
        }
    }
}

/// The headings of `markdown`, in order; each one's offset is the character index where
/// its line starts.
pub open spec fn headings_of(markdown: Seq<char>) -> Seq<HeadingView> {
    headings_from(markdown, 0)
}

/// Headings seen as plain values.
pub open spec fn headings_view(v: Seq<Heading>) -> Seq<HeadingView> {
    v.map_values(|h: Heading| h@)
}

/// The level of the heading line `v[from..to]` (leading whitespace already removed).
fn atx_level(v: &Vec<char>, from: usize, to: usize) -> (r: Option<u8>)
    requires
        from <= to <= v@.len(),
    ensures
        match r {
            Some(l) => atx_spec(v@.subrange(from as int, to as int)) == Some(l as int),
            None => atx_spec(v@.subrange(from as int, to as int)) is None,
        },
{
    let k = run_forward(v, from, to, '#');
    let count = k - from;
    if 1 <= count && count <= 6 && k < to && v[k] == ' ' {
        Some(count as u8)
    } else {
        None
    }
}

/// The heading that the line `v[i..e]` holds, if it is one.
fn heading_of_line(v: &Vec<char>, i: usize, e: usize) -> (r: Option<Heading>)
    requires
        i <= e <= v@.len(),
    ensures
        ({
            let line = v@.subrange(i as int, e as int);
            let t = trim_start(line);
            match atx_spec(t) {
                Some(level) => r matches Some(h) && h@ == (
                    level,
                    heading_text(t),
                    i as int,
                ),
                None => r is None,
            }
        }),
{
    let ghost line = v@.subrange(i as int, e as int);
    let t0 = skip_white_forward(v, i, e);
    proof {
        lemma_lead_white(line);
        assert(trim_start(line) =~= v@.subrange(t0 as int, e as int));
    }
    match atx_level(v, t0, e) {
        Some(level) => {
            let ghost t = v@.subrange(t0 as int, e as int);
            let a = run_forward(v, t0, e, '#');
            proof {
                lemma_lead_run(t, '#');
                assert(t.skip(lead_run(t, '#') as int) =~= v@.subrange(a as int, e as int));
            }
            let b = skip_white_forward(v, a, e);
            proof {
                lemma_lead_white(v@.subrange(a as int, e as int));
                assert(trim_start(v@.subrange(a as int, e as int)) =~= v@.subrange(
                    b as int,
                    e as int,
                ));
            }
            let c = skip_white_backward(v, b, e);
            proof {
                lemma_trail_white(v@.subrange(b as int, e as int));
                assert(trim_end(v@.subrange(b as int, e as int)) =~= v@.subrange(
                    b as int,
                    c as int,
                ));
            }
            let d = run_backward(v, b, c, '#');
            proof {
                lemma_trail_run(v@.subrange(b as int, c as int), '#');
                assert(v@.subrange(b as int, c as int).take(
                    (c - b) - trail_run(v@.subrange(b as int, c as int), '#'),
                ) =~= v@.subrange(b as int, d as int));
            }
            let f = skip_white_backward(v, b, d);
            proof {
                lemma_trail_white(v@.subrange(b as int, d as int));
                assert(trim_end(v@.subrange(b as int, d as int)) =~= v@.subrange(
                    b as int,
                    f as int,
                ));
            }
            let text = string_of_range(v, b, f);
            Some(Heading { level, text, char_offset: i })
        },
        None => None,
    }
}

/// The ATX headings of `markdown`: lines whose first non-blank characters are one to six
/// `#` followed by a space.
pub fn extract(markdown: &str) -> (headings: Vec<Heading>)
    ensures
        headings_view(headings@) == headings_of(markdown@),
{
    let v = chars_of(markdown);
    let n = v.len();
    let mut headings: Vec<Heading> = Vec::new();
    let mut i: usize = 0;
    while i < n
        invariant
            i <= n,
            n == v@.len(),
            v@ == markdown@,
            headings_of(markdown@) == headings_view(headings@) + headings_from(v@, i as int),
        decreases n - i,
    {
        let e = match first_index_in(&v, '\n', i, n) {
            Some(j) => j + 1,
            None => n,
        };
        proof {
            lemma_first_index(v@, '\n', i as int);
            lemma_first_index_shift(v@, '\n', i as int, n as int);
        }
        let ghost before = headings_view(headings@);
        match heading_of_line(&v, i, e) {
            Some(h) => {
                headings.push(h);
                assert(headings_view(headings@) =~= before.push(h@));
            },
            None => {},
        }
        i = e;
    }
    assert(headings_view(headings@) + headings_from(v@, i as int) =~= headings_view(headings@));
    headings
}

/// A heading line starts at index `o` of `s`: the line's first non-blank
/// character, at `w`, is a `#`.
pub open spec fn heading_line_at(s: Seq<char>, o: int) -> bool {
    &&& 0 <= o < s.len()
    &&& (o == 0 || s[o - 1] == '\n')
    &&& exists|w: int|
        o <= w < s.len() && #[trigger] s[w] == '#' && forall|m: int|
            o <= m < w ==> crate::text::is_white(#[trigger] s[m]) && s[m] != '\n'
}

proof fn lemma_headings_from_sound(s: Seq<char>, i: int)
    requires
        0 <= i,
        i == 0 || i >= s.len() || s[i - 1] == '\n',
    ensures
        forall|k: int|
            0 <= k < headings_from(s, i).len() ==> {
                let h = #[trigger] headings_from(s, i)[k];
                &&& 1 <= h.0 <= 6
                &&& i <= h.2
                &&& heading_line_at(s, h.2)
            },
    decreases s.len() - i,
{
    if i < s.len() {
        let e = line_after(s, i);
        lemma_first_index(s, '\n', i);
        lemma_headings_from_sound(s, e);
        let line = s.subrange(i, e);
        let t = trim_start(line);
        lemma_lead_white(line);
        if let Some(level) = atx_spec(t) {
            let h = (level, heading_text(t), i);
            let w = i + crate::text::lead_white(line);
            assert(t[0] == '#') by {
                reveal_with_fuel(lead_run, 2);
            }
            assert(s[w] == t[0]);
            assert forall|m: int| i <= m < w implies crate::text::is_white(#[trigger] s[m]) && s[m]
                != '\n' by {
                assert(s[m] == line[m - i]);
                if let Some(j) = first_index(s, '\n', i) {
                    assert(w != j);
                }
            }
            assert(heading_line_at(s, i));
            let rest = headings_from(s, e);
            assert(headings_from(s, i) == seq![h] + rest);
            assert forall|k: int| 0 <= k < (seq![h] + rest).len() implies {
                let g = #[trigger] (seq![h] + rest)[k];
                &&& 1 <= g.0 <= 6
                &&& i <= g.2
                &&& heading_line_at(s, g.2)
            } by {
                if k > 0 {
                    assert((seq![h] + rest)[k] == rest[k - 1]);
                }
            }
        } else {
            assert(headings_from(s, i) == headings_from(s, e));
        }
    }
}

/// Every heading of the table of contents has a level from 1 to 6, and its offset is where
/// its line starts, a line whose first non-blank character is a `#`; jumping there lands
/// on the heading's line.
pub proof fn lemma_headings_point_at_lines(markdown: Seq<char>)
    ensures
        forall|k: int|
            0 <= k < headings_of(markdown).len() ==> {
                let h = #[trigger] headings_of(markdown)[k];
                &&& 1 <= h.0 <= 6
                &&& heading_line_at(markdown, h.2)
            },
{
    lemma_headings_from_sound(markdown, 0);
}

/// `first_index` over a suffix of `s`, counted from the suffix's start.
pub proof fn lemma_first_index_shift(s: Seq<char>, c: char, i: int, n: int)
    requires
        0 <= i <= n,
        n == s.len(),
    ensures
        first_index(s, c, i) == (match first_index(s.subrange(i, n), c, 0) {
            Some(k) => Some(k + i),
            None => None::<int>,
        }),
{
    lemma_first_index(s, c, i);
    lemma_first_index(s.subrange(i, n), c, 0);
    let sub = s.subrange(i, n);
    match first_index(s, c, i) {
        Some(k) => {
            assert(sub[k - i] == c);
            if first_index(sub, c, 0) != Some(k - i) {
                let k2 = first_index(sub, c, 0)->0;
                assert(sub[k2] == s[k2 + i]);
            }
        },
        None => {
            if first_index(sub, c, 0) is Some {
                let k2 = first_index(sub, c, 0)->0;
                assert(sub[k2] == s[k2 + i]);
            }
        },
    }
}


proof fn lemma_lead_run_exact(s: Seq<char>, c: char, k: int)
    requires
        0 <= k < s.len(),
        forall|j: int| 0 <= j < k ==> s[j] == c,
        s[k] != c,
    ensures
        lead_run(s, c) == k,
    decreases k,
{
    if k > 0 {
        assert forall|j: int| 0 <= j < k - 1 implies s.drop_first()[j] == c by {
            assert(s.drop_first()[j] == s[j + 1]);
        }
        lemma_lead_run_exact(s.drop_first(), c, k - 1);
    }
}

proof fn lemma_lead_white_exact(s: Seq<char>, k: int)
    requires
        0 <= k < s.len(),
        forall|j: int| 0 <= j < k ==> crate::text::is_white(s[j]),
        !crate::text::is_white(s[k]),
    ensures
        crate::text::lead_white(s) == k,
    decreases k,
{
    if k > 0 {
        assert forall|j: int| 0 <= j < k - 1 implies crate::text::is_white(s.drop_first()[j]) by {
            assert(s.drop_first()[j] == s[j + 1]);
        }
        lemma_lead_white_exact(s.drop_first(), k - 1);
    }
}

/// The headings from the line starting at `j` on include the one of the heading line at
/// `i`, further on.
proof fn lemma_atx_line_listed_from(s: Seq<char>, j: int, i: int, w: int, k: int)
    requires
        0 <= j <= i <= w,
        w + k < s.len(),
        j == 0 || s[j - 1] == '\n',
        i == 0 || s[i - 1] == '\n',
        forall|m: int| i <= m < w ==> crate::text::is_white(s[m]) && s[m] != '\n',
        1 <= k <= 6,
        forall|m: int| w <= m < w + k ==> s[m] == '#',
        s[w + k] == ' ',
    ensures
        exists|h: int|
            0 <= h < headings_from(s, j).len() && #[trigger] headings_from(s, j)[h].0 == k
                && headings_from(s, j)[h].2 == i,
    decreases i - j,
{
    lemma_first_index(s, '\n', j);
    let e = line_after(s, j);
    let line = s.subrange(j, e);
    let t = trim_start(line);
    if j < i {
        assert(s[i - 1] == '\n');
        assert(e <= i);
        lemma_atx_line_listed_from(s, e, i, w, k);
        let rest = headings_from(s, e);
        let h = choose|h: int| 0 <= h < rest.len() && #[trigger] rest[h].0 == k && rest[h].2 == i;
        match atx_spec(t) {
            Some(level) => {
                let first = (level, heading_text(t), j);
                assert(headings_from(s, j) == seq![first] + rest);
                assert(headings_from(s, j)[h + 1] == rest[h]);
            },
            None => {
                assert(headings_from(s, j) == rest);
            },
        }
    } else {
        assert forall|m: int| j <= m <= w + k implies s[m] != '\n' by {
            if m >= w && m < w + k {
                assert(s[m] == '#');
            }
        }
        assert(e > w + k);
        assert forall|m: int| 0 <= m < w - i implies crate::text::is_white(line[m]) by {
            assert(line[m] == s[i + m]);
        }
        assert(line[w - i] == '#');
        lemma_lead_white_exact(line, w - i);
        assert(t =~= s.subrange(w, e));
        assert forall|m: int| 0 <= m < k implies t[m] == '#' by {
            assert(t[m] == s[w + m]);
        }
        assert(t[k] == ' ');
        lemma_lead_run_exact(t, '#', k);
        assert(atx_spec(t) == Some(k));
        assert(headings_from(s, j)[0].0 == k);
        assert(headings_from(s, j)[0].2 == i);
    }
}

/// A line whose first non-blank characters are `k` `#` (1 <= k <= 6) followed by a space
/// is listed in the table of contents, as a heading of level `k` at the line's start.
pub proof fn lemma_atx_line_listed(s: Seq<char>, i: int, w: int, k: int)
    requires
        0 <= i <= w,
        w + k < s.len(),
        i == 0 || s[i - 1] == '\n',
        forall|m: int| i <= m < w ==> crate::text::is_white(s[m]) && s[m] != '\n',
        1 <= k <= 6,
        forall|m: int| w <= m < w + k ==> s[m] == '#',
        s[w + k] == ' ',
    ensures
        exists|h: int|
            0 <= h < headings_of(s).len() && #[trigger] headings_of(s)[h].0 == k && headings_of(s)[h].2
                == i,
{
    lemma_atx_line_listed_from(s, 0, i, w, k);
    let hs = headings_from(s, 0);
    let h = choose|h: int| 0 <= h < hs.len() && #[trigger] hs[h].0 == k && hs[h].2 == i;
    assert(headings_of(s)[h].0 == k && headings_of(s)[h].2 == i);
}

} // verus!
