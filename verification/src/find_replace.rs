//! Find & replace over a note's text.
//!
//! Matches are the non-overlapping occurrences of the query, taken from left to right;
//! they are reported as byte ranges `(start, end)`, as `str` slicing uses them.
use vstd::prelude::*;
use crate::text::{
    byte_len, byte_len_checked, byte_len_of_range, byte_offset, chars_of, extend_all,
    extend_range, find_from, find_from_exec, lemma_byte_len_concat, lemma_byte_offset_mono,
    lemma_byte_offset_step, lemma_find_from, lowercase, string_of, to_lowercase, dec, extend_str,
    push_decimal, occurs_at,
    utf8_width,
};

verus! {

/// State of the find/replace bar.
#[derive(Clone)]
pub struct FindReplaceState {
    pub visible: bool,
    pub show_replace: bool,
    pub query: String,
    pub replace_with: String,
    pub case_sensitive: bool,
    pub current_match: usize,
    pub focus_query: bool,
}

impl Default for FindReplaceState {
    fn default() -> (r: Self)
        ensures
            !r.visible,
            !r.show_replace,
            r.query@ == Seq::<char>::empty(),
            r.replace_with@ == Seq::<char>::empty(),
            !r.case_sensitive,
            r.current_match == 0,
            !r.focus_query,
    {
        FindReplaceState {
            visible: false,
            show_replace: false,
            query: String::new(),
            replace_with: String::new(),
            case_sensitive: false,
            current_match: 0,
            focus_query: false,
        }
    }
}

impl FindReplaceState {
    /// Shows the bar for finding, with the query focused.
    pub fn open_find(&mut self)
        ensures
            final(self).visible,
            !final(self).show_replace,
            final(self).focus_query,
            final(self).query == old(self).query,
            final(self).replace_with == old(self).replace_with,
            final(self).case_sensitive == old(self).case_sensitive,
            final(self).current_match == old(self).current_match,
    {
        self.visible = true;
        self.show_replace = false;
        self.focus_query = true;
    }

    /// Shows the bar for finding and replacing, with the query focused.
    pub fn open_replace(&mut self)
        ensures
            final(self).visible,
            final(self).show_replace,
            final(self).focus_query,
            final(self).query == old(self).query,
            final(self).replace_with == old(self).replace_with,
            final(self).case_sensitive == old(self).case_sensitive,
            final(self).current_match == old(self).current_match,
    {
        self.visible = true;
        self.show_replace = true;
        self.focus_query = true;
    }

    /// Hides the bar.
    pub fn close(&mut self)
        ensures
            !final(self).visible,
            final(self).show_replace == old(self).show_replace,
            final(self).focus_query == old(self).focus_query,
            final(self).query == old(self).query,
            final(self).replace_with == old(self).replace_with,
            final(self).case_sensitive == old(self).case_sensitive,
            final(self).current_match == old(self).current_match,
    {
        self.visible = false;
    }
}

// ---------------------------------------------------------------------------
// Specifications
// ---------------------------------------------------------------------------

/// How far the search moves on after a match of `n`.
pub open spec fn step(n: Seq<char>) -> int {
    if n.len() == 0 {
        1
    } else {
        n.len() as int
    }
}

/// Character indices of the matches of `n` in `h` at or after `from`, left to right,
/// each search resuming after the previous match.
pub open spec fn match_starts(h: Seq<char>, n: Seq<char>, from: int) -> Seq<int>
    decreases h.len() + 1 - from,
{
    if from < 0 {
        seq![]
    } else {
        match find_from(h, n, from) {
            Some(i) => {
                proof {
                    lemma_find_from(h, n, from);
                }
                seq![i] + match_starts(h, n, i + step(n))
            },
            None => seq![],
        }
    }
}

/// Byte range of the match of `n` at character index `i` of `h`.
pub open spec fn span_at(h: Seq<char>, n: Seq<char>, i: int) -> (int, int) {
    (byte_offset(h, i) as int, (byte_offset(h, i) + byte_len(n)) as int)
}

/// Byte ranges of the matches of `n` in `h`.
pub open spec fn match_spans(h: Seq<char>, n: Seq<char>) -> Seq<(int, int)> {
    match_starts(h, n, 0).map_values(|i: int| span_at(h, n, i))
}

/// What `find_all` returns.
pub open spec fn find_all_spec(text: Seq<char>, query: Seq<char>, case_sensitive: bool) -> Seq<
    (int, int),
> {
    if query.len() == 0 {
        seq![]
    } else if case_sensitive {
        match_spans(text, query)
    } else {
        match_spans(lowercase(text), lowercase(query))
    }
}

/// The byte offsets that `find_all` computes fit in `usize`.
pub open spec fn find_all_fits(text: Seq<char>, query: Seq<char>, case_sensitive: bool) -> bool {
    query.len() == 0 || (if case_sensitive {
        byte_len(text) <= usize::MAX
    } else {
        byte_len(lowercase(text)) <= usize::MAX && lowercase(query).len() > 0
    })
}

/// A list of byte ranges seen as integer pairs.
pub open spec fn pairs_view(v: Seq<(usize, usize)>) -> Seq<(int, int)> {
    v.map_values(|p: (usize, usize)| (p.0 as int, p.1 as int))
}

/// `t[from..]` with every match of `q` replaced by `r`.
pub open spec fn replace_from(t: Seq<char>, q: Seq<char>, r: Seq<char>, from: int) -> Seq<char>
    decreases t.len() + 1 - from,
{
    if from < 0 || from > t.len() {
        seq![]
    } else {
        match find_from(t, q, from) {
            Some(i) => {
                proof {
                    lemma_find_from(t, q, from);
                }
                t.subrange(from, i) + r + replace_from(t, q, r, i + step(q))
            },
            None => t.skip(from),
        }
    }
}

/// `b` is a byte offset that falls between two characters of `t` (or at either end).
pub open spec fn is_boundary(t: Seq<char>, b: int) -> bool {
    exists|k: int| 0 <= k <= t.len() && byte_offset(t, k) == b
}

/// The character index at byte offset `b` of `t`.
pub open spec fn char_index_at(t: Seq<char>, b: int) -> int {
    choose|k: int| 0 <= k <= t.len() && byte_offset(t, k) == b
}

/// The byte ranges, in order, can be cut out of `t` starting from byte `from`.
pub open spec fn spans_fit(t: Seq<char>, spans: Seq<(int, int)>, from: int) -> bool
    decreases spans.len(),
{
    if spans.len() == 0 {
        true
    } else {
        &&& from <= spans[0].0 <= spans[0].1
        &&& is_boundary(t, spans[0].0)
        &&& is_boundary(t, spans[0].1)
        &&& spans_fit(t, spans.drop_first(), spans[0].1)
    }
}

/// `t` from the character index `from`, with the byte ranges `spans` replaced by `r`.
pub open spec fn splice_spans(t: Seq<char>, spans: Seq<(int, int)>, r: Seq<char>, from: int) -> Seq<
    char,
>
    decreases spans.len(),
{
    if spans.len() == 0 {
        t.skip(from)
    } else {
        t.subrange(from, char_index_at(t, spans[0].0)) + r + splice_spans(
            t,
            spans.drop_first(),
            r,
            char_index_at(t, spans[0].1),
        )
    }
}

/// What `replace_all` returns: the new text and the number of replacements.
pub open spec fn replace_all_spec(
    text: Seq<char>,
    query: Seq<char>,
    replacement: Seq<char>,
    case_sensitive: bool,
) -> (Seq<char>, nat) {
    if query.len() == 0 {
        (text, 0)
    } else if case_sensitive {
        (replace_from(text, query, replacement, 0), match_starts(text, query, 0).len())
    } else {
        let spans = match_spans(lowercase(text), lowercase(query));
        if spans.len() == 0 {
            (text, 0)
        } else {
            (splice_spans(text, spans, replacement, 0), spans.len())
        }
    }
}

/// `replace_all` can splice the original text at the matches found in its lowercase form.
pub open spec fn replace_all_fits(text: Seq<char>, query: Seq<char>, case_sensitive: bool) -> bool {
    query.len() == 0 || case_sensitive || (byte_len(lowercase(text)) <= usize::MAX
        && lowercase(query).len() > 0 && spans_fit(
        text,
        match_spans(lowercase(text), lowercase(query)),
        0,
    ))
}


// ---------------------------------------------------------------------------
// Laws
// ---------------------------------------------------------------------------

/// `replace_all` reports as many replacements as `find_all` finds matches.
pub proof fn lemma_replace_count_is_match_count(
    text: Seq<char>,
    query: Seq<char>,
    replacement: Seq<char>,
    case_sensitive: bool,
)
    ensures
        replace_all_spec(text, query, replacement, case_sensitive).1 == find_all_spec(
            text,
            query,
            case_sensitive,
        ).len(),
{
}

/// When `find_all` finds no match, an empty query among such cases, `replace_all` leaves
/// the text as it is and reports no replacement.
pub proof fn lemma_replace_without_matches(
    text: Seq<char>,
    query: Seq<char>,
    replacement: Seq<char>,
    case_sensitive: bool,
)
    requires
        find_all_spec(text, query, case_sensitive).len() == 0,
    ensures
        replace_all_spec(text, query, replacement, case_sensitive) == (text, 0nat),
{
    if query.len() > 0 && case_sensitive {
        assert(match_starts(text, query, 0).len() == 0);
        assert(find_from(text, query, 0) is None);
        assert(text.skip(0) =~= text);
    }
}

/// The matches that the search finds, left to right: each is an occurrence of `n` at or
/// after `from`, each starts after the previous one ends, and none occurs before the first.
pub proof fn lemma_match_starts_occurrences(h: Seq<char>, n: Seq<char>, from: int)
    requires
        n.len() > 0,
        from >= 0,
    ensures
        forall|a: int|
            0 <= a < match_starts(h, n, from).len() ==> from <= #[trigger] match_starts(h, n, from)[a]
                && occurs_at(h, n, match_starts(h, n, from)[a]),
        forall|a: int|
            0 < a < match_starts(h, n, from).len() ==> match_starts(h, n, from)[a - 1] + n.len()
                <= #[trigger] match_starts(h, n, from)[a],
        match_starts(h, n, from).len() > 0 ==> forall|j: int|
            from <= j < match_starts(h, n, from)[0] ==> !occurs_at(h, n, j),
    decreases h.len() + 1 - from,
{
    lemma_find_from(h, n, from);
    if let Some(i) = find_from(h, n, from) {
        let rest = match_starts(h, n, i + n.len());
        lemma_match_starts_occurrences(h, n, i + n.len());
        let all = match_starts(h, n, from);
        assert(all == seq![i] + rest);
        assert forall|a: int| 0 <= a < all.len() implies from <= #[trigger] all[a] && occurs_at(h, n, all[a]) by {
            if a > 0 {
                assert(all[a] == rest[a - 1]);
            }
        }
        assert forall|a: int| 0 < a < all.len() implies all[a - 1] + n.len() <= #[trigger] all[a] by {
            assert(all[a] == rest[a - 1]);
            if a > 1 {
                assert(all[a - 1] == rest[a - 2]);
            }
        }
    }
}

/// Case-sensitively, replacing the current match replaces one occurrence of the query:
/// the one the find bar points at, number `min(current, n - 1)` of the `n` occurrences that
/// the search finds left to right (for `current` 0, the first occurrence in the text).  The
/// text before and after that occurrence is kept.
pub proof fn lemma_replace_current_match(text: Seq<char>, query: Seq<char>, r: Seq<char>, current: nat)
    requires
        query.len() > 0,
        match_starts(text, query, 0).len() > 0,
    ensures
        ({
            let starts = match_starts(text, query, 0);
            let i = if current < starts.len() {
                current as int
            } else {
                starts.len() - 1
            };
            let k = starts[i];
            &&& occurs_at(text, query, k)
            &&& i == 0 ==> forall|j: int| 0 <= j < k ==> !occurs_at(text, query, j)
            &&& replace_one_spec(text, query, r, true, current) == Some(
                text.take(k) + r + text.skip(k + query.len()),
            )
        }),
{
    let starts = match_starts(text, query, 0);
    lemma_match_starts_occurrences(text, query, 0);
    let i = if current < starts.len() {
        current as int
    } else {
        starts.len() - 1
    };
    let k = starts[i];
    assert(occurs_at(text, query, k));
    let spans = find_all_spec(text, query, true);
    assert(spans == match_spans(text, query));
    assert(spans[i] == span_at(text, query, k));
    lemma_char_index_at(text, k);
    lemma_byte_len_concat(text.take(k), text.subrange(k, k + query.len()));
    assert(text.take(k) + text.subrange(k, k + query.len()) =~= text.take(k + query.len()));
    assert(byte_offset(text, k + query.len()) == byte_offset(text, k) + byte_len(query));
    lemma_char_index_at(text, k + query.len());
}

/// Replacing every match of a non-empty query by the query itself leaves the text unchanged.
pub proof fn lemma_replace_by_itself(text: Seq<char>, query: Seq<char>)
    requires
        query.len() > 0,
    ensures
        replace_all_spec(text, query, query, true).0 == text,
{
    lemma_replace_from_itself(text, query, 0);
    assert(text.skip(0) =~= text);
}

proof fn lemma_replace_from_itself(t: Seq<char>, q: Seq<char>, from: int)
    requires
        q.len() > 0,
        0 <= from <= t.len(),
    ensures
        replace_from(t, q, q, from) == t.skip(from),
    decreases t.len() + 1 - from,
{
    lemma_find_from(t, q, from);
    if let Some(i) = find_from(t, q, from) {
        lemma_replace_from_itself(t, q, i + q.len());
        assert(t.subrange(i, i + q.len()) == q);
        assert(t.subrange(from, i) + q + t.skip(i + q.len()) =~= t.skip(from));
    }
}

// ---------------------------------------------------------------------------
// Implementation
// ---------------------------------------------------------------------------

/// Byte ranges of the matches of `query` in `text`; case-insensitively, the ranges are those
/// of the lowercase text.
pub fn find_all(text: &str, query: &str, case_sensitive: bool) -> (r: Vec<(usize, usize)>)
    requires
        find_all_fits(text@, query@, case_sensitive),
    ensures
        pairs_view(r@) == find_all_spec(text@, query@, case_sensitive),
{
    if query.is_empty() {
        let v: Vec<(usize, usize)> = Vec::new();
        assert(pairs_view(v@) =~= Seq::<(int, int)>::empty());
        return v;
    }
    if case_sensitive {
        let h = chars_of(text);
        let n = chars_of(query);
        find_all_inner(&h, &n)
    } else {
        let hay = to_lowercase(text);
        let needle = to_lowercase(query);
        let h = chars_of(hay.as_str());
        let n = chars_of(needle.as_str());
        find_all_inner(&h, &n)
    }
}

/// Like `find_all`, or `None` when the byte offsets would not fit in `usize`.
pub fn find_all_checked(text: &str, query: &str, case_sensitive: bool) -> (r: Option<
    Vec<(usize, usize)>,
>)
    ensures
        r matches Some(v) ==> find_all_fits(text@, query@, case_sensitive) && pairs_view(v@)
            == find_all_spec(text@, query@, case_sensitive),
        r is None ==> !find_all_fits(text@, query@, case_sensitive),
{
    if !query.is_empty() {
        let h = if case_sensitive {
            chars_of(text)
        } else {
            let hay = to_lowercase(text);
            chars_of(hay.as_str())
        };
        if byte_len_checked(&h).is_none() {
            return None;
        }
        if !case_sensitive {
            let needle = to_lowercase(query);
            if needle.as_str().is_empty() {
                return None;
            }
        }
    }
    Some(find_all(text, query, case_sensitive))
}

pub proof fn lemma_byte_len_subrange(s: Seq<char>, i: int, j: int)
    requires
        0 <= i <= j <= s.len(),
    ensures
        byte_len(s.subrange(i, j)) <= byte_len(s),
        byte_offset(s, j) == byte_offset(s, i) + byte_len(s.subrange(i, j)),
{
    lemma_byte_len_concat(s.take(i), s.subrange(i, j));
    assert(s.take(i) + s.subrange(i, j) =~= s.take(j));
    lemma_byte_len_concat(s.take(j), s.skip(j));
    assert(s.take(j) + s.skip(j) =~= s);
}

fn find_all_inner(hay: &Vec<char>, needle: &Vec<char>) -> (r: Vec<(usize, usize)>)
    requires
        needle@.len() > 0,
        byte_len(hay@) <= usize::MAX,
    ensures
        pairs_view(r@) == match_spans(hay@, needle@),
{
    let ghost all = match_starts(hay@, needle@, 0);
    let mut out: Vec<(usize, usize)> = Vec::new();
    let mut start: usize = 0;
    let mut start_byte: usize = 0;
    let mut needle_bytes: usize = 0;
    let mut have_needle_bytes = false;
    loop
        invariant
            needle@.len() > 0,
            byte_len(hay@) <= usize::MAX,
            start <= hay@.len() + 1,
            start <= hay@.len() ==> start_byte == byte_offset(hay@, start as int),
            have_needle_bytes ==> needle_bytes == byte_len(needle@),
            all == match_starts(hay@, needle@, 0),
            pairs_view(out@) + match_starts(hay@, needle@, start as int).map_values(
                |i: int| span_at(hay@, needle@, i),
            ) == all.map_values(|i: int| span_at(hay@, needle@, i)),
        decreases hay@.len() + 1 - start,
    {
        let found = find_from_exec(hay, needle, start);
        proof {
            lemma_find_from(hay@, needle@, start as int);
        }
        match found {
            None => {
                assert(match_starts(hay@, needle@, start as int) =~= Seq::<int>::empty());
                assert(pairs_view(out@) =~= all.map_values(|i: int| span_at(hay@, needle@, i)));
                return out;
            },
            Some(pos) => {
                let hlen = hay.len();
                assert(pos + needle@.len() <= hlen);
                proof {
                    lemma_byte_len_subrange(hay@, start as int, pos as int);
                    lemma_byte_len_subrange(hay@, pos as int, pos + needle@.len());
                    lemma_byte_offset_mono(hay@, pos + needle@.len(), hay@.len() as int);
                    assert(hay@.take(hay@.len() as int) =~= hay@);
                    assert(hay@.subrange(pos as int, pos + needle@.len()) =~= needle@);
                }
                let gap = byte_len_of_range(hay, start, pos);
                let b = start_byte + gap;
                if !have_needle_bytes {
                    needle_bytes = byte_len_of_range(hay, pos, pos + needle.len());
                    have_needle_bytes = true;
                }
                let e = b + needle_bytes;
                let ghost old_pairs = pairs_view(out@);
                out.push((b, e));
                let ghost rest = match_starts(hay@, needle@, pos + needle@.len());
                assert(match_starts(hay@, needle@, start as int) == seq![pos as int] + rest);
                assert(pairs_view(out@) =~= old_pairs.push(span_at(hay@, needle@, pos as int)));
                assert((seq![pos as int] + rest).map_values(|i: int| span_at(hay@, needle@, i))
                    =~= seq![span_at(hay@, needle@, pos as int)] + rest.map_values(
                    |i: int| span_at(hay@, needle@, i),
                ));
                assert(pairs_view(out@) + rest.map_values(|i: int| span_at(hay@, needle@, i))
                    =~= old_pairs + match_starts(hay@, needle@, start as int).map_values(
                    |i: int| span_at(hay@, needle@, i),
                ));
                start = pos + needle.len();
                start_byte = e;
            },
        }
    }
}

/// Replaces every match of `query` by `replacement`; returns the new text and the number of
/// replacements. Case-insensitive matches are found in the lowercase text and cut out of
/// the original text at the same byte offsets.
pub fn replace_all(text: &str, query: &str, replacement: &str, case_sensitive: bool) -> (r: (
    String,
    usize,
))
    requires
        replace_all_fits(text@, query@, case_sensitive),
    ensures
        (r.0@, r.1 as nat) == replace_all_spec(text@, query@, replacement@, case_sensitive),
{
    let t = chars_of(text);
    if query.is_empty() {
        return (string_of(&t), 0);
    }
    let rep = chars_of(replacement);
    if case_sensitive {
        let q = chars_of(query);
        let (out, count) = replace_inner(&t, &q, &rep);
        (string_of(&out), count)
    } else {
        let hay = to_lowercase(text);
        let needle = to_lowercase(query);
        let h = chars_of(hay.as_str());
        let n = chars_of(needle.as_str());
        let matches = find_all_inner(&h, &n);
        if matches.len() == 0 {
            return (string_of(&t), 0);
        }
        let count = matches.len();
        let out = splice_exec(&t, &matches, &rep);
        (string_of(&out), count)
    }
}

/// Like `replace_all`, or `None` when the case-insensitive matches cannot be cut out of `text`.
pub fn replace_all_checked(text: &str, query: &str, replacement: &str, case_sensitive: bool) -> (r:
    Option<(String, usize)>)
    ensures
        r matches Some(x) ==> replace_all_fits(text@, query@, case_sensitive) && (x.0@, x.1 as nat)
            == replace_all_spec(text@, query@, replacement@, case_sensitive),
        r is None ==> !replace_all_fits(text@, query@, case_sensitive),
{
    if !query.is_empty() && !case_sensitive {
        let hay = to_lowercase(text);
        let needle = to_lowercase(query);
        let h = chars_of(hay.as_str());
        let n = chars_of(needle.as_str());
        if byte_len_checked(&h).is_none() || n.len() == 0 {
            return None;
        }
        let matches = find_all_inner(&h, &n);
        let t = chars_of(text);
        if !spans_fit_exec(&t, &matches) {
            return None;
        }
    }
    Some(replace_all(text, query, replacement, case_sensitive))
}

fn replace_inner(t: &Vec<char>, q: &Vec<char>, rep: &Vec<char>) -> (r: (Vec<char>, usize))
    requires
        q@.len() > 0,
    ensures
        r.0@ == replace_from(t@, q@, rep@, 0),
        r.1 == match_starts(t@, q@, 0).len(),
{
    let mut out: Vec<char> = Vec::new();
    let mut count: usize = 0;
    let mut start: usize = 0;
    loop
        invariant
            q@.len() > 0,
            start <= t@.len(),
            out@ + replace_from(t@, q@, rep@, start as int) == replace_from(t@, q@, rep@, 0),
            count + match_starts(t@, q@, start as int).len() == match_starts(t@, q@, 0).len(),
        decreases t@.len() + 1 - start,
    {
        let found = find_from_exec(t, q, start);
        proof {
            lemma_find_from(t@, q@, start as int);
        }
        match found {
            None => {
                extend_range(&mut out, t, start, t.len());
                assert(t@.subrange(start as int, t@.len() as int) =~= t@.skip(start as int));
                return (out, count);
            },
            Some(pos) => {
                let tlen = t.len();
                assert(pos + q@.len() <= tlen);
                proof {
                    lemma_match_starts_len(t@, q@, 0);
                    lemma_match_starts_len(t@, q@, pos + q@.len());
                }
                let ghost before = out@;
                extend_range(&mut out, t, start, pos);
                extend_all(&mut out, rep);
                assert(out@ + replace_from(t@, q@, rep@, pos + q@.len()) =~= before
                    + replace_from(t@, q@, rep@, start as int));
                count = count + 1;
                start = pos + q.len();
            },
        }
    }
}

pub proof fn lemma_match_starts_len(h: Seq<char>, n: Seq<char>, from: int)
    requires
        n.len() > 0,
    ensures
        from >= 0 ==> match_starts(h, n, from).len() <= if from <= h.len() {
            h.len() - from
        } else {
            0
        },
    decreases h.len() + 1 - from,
{
    if from >= 0 {
        lemma_find_from(h, n, from);
        if let Some(i) = find_from(h, n, from) {
            lemma_match_starts_len(h, n, i + step(n));
        }
    }
}

/// Scans `t` from character `k` (at byte `b`) to the character at byte `target`.
fn char_index_of_byte(t: &Vec<char>, k: usize, b: usize, target: usize) -> (r: Option<(usize, usize)>)
    requires
        k <= t@.len(),
        b == byte_offset(t@, k as int),
    ensures
        r matches Some((j, bj)) ==> k <= j <= t@.len() && byte_offset(t@, j as int) == target && bj
            == target,
        r is None ==> forall|j: int| k <= j <= t@.len() ==> byte_offset(t@, j) != target,
{
    let mut j = k;
    let mut bj = b;
    loop
        invariant
            k <= j <= t@.len(),
            bj == byte_offset(t@, j as int),
            forall|m: int| k <= m < j ==> byte_offset(t@, m) < target,
        decreases t@.len() - j,
    {
        if bj == target {
            return Some((j, bj));
        }
        if bj > target || j == t.len() {
            proof {
                assert forall|m: int| k <= m <= t@.len() implies byte_offset(t@, m) != target by {
                    if m > j {
                        lemma_byte_offset_mono(t@, j as int, m);
                    }
                }
            }
            return None;
        }
        let w = utf8_width(t[j]);
        proof {
            lemma_byte_offset_step(t@, j as int);
        }
        if bj > usize::MAX - w {
            proof {
                assert forall|m: int| k <= m <= t@.len() implies byte_offset(t@, m) != target by {
                    if m > j {
                        lemma_byte_offset_mono(t@, j + 1, m);
                    }
                }
            }
            return None;
        }
        bj = bj + w;
        j = j + 1;
    }
}

pub proof fn lemma_char_index_at(t: Seq<char>, k: int)
    requires
        0 <= k <= t.len(),
    ensures
        is_boundary(t, byte_offset(t, k) as int),
        char_index_at(t, byte_offset(t, k) as int) == k,
{
    assert(0 <= k <= t.len() && byte_offset(t, k) == byte_offset(t, k));
    let j = char_index_at(t, byte_offset(t, k) as int);
    if j < k {
        lemma_byte_offset_mono(t, j, k);
    } else if j > k {
        lemma_byte_offset_mono(t, k, j);
    }
}

/// The byte ranges can be cut out of `t`, in order.
fn spans_fit_exec(t: &Vec<char>, spans: &Vec<(usize, usize)>) -> (b: bool)
    ensures
        b == spans_fit(t@, pairs_view(spans@), 0),
{
    let mut i: usize = 0;
    let mut k: usize = 0;
    let mut bk: usize = 0;
    assert(byte_offset(t@, 0) == 0) by {
        assert(t@.take(0) =~= Seq::<char>::empty());
    }
    assert(pairs_view(spans@).skip(0) =~= pairs_view(spans@));
    while i < spans.len()
        invariant
            i <= spans@.len(),
            k <= t@.len(),
            bk == byte_offset(t@, k as int),
            i == 0 ==> k == 0,
            spans_fit(t@, pairs_view(spans@), 0) == spans_fit(
                t@,
                pairs_view(spans@).skip(i as int),
                if i == 0 {
                    0
                } else {
                    spans@[i - 1].1 as int
                },
            ),
            i > 0 ==> bk == spans@[i - 1].1,
        decreases spans@.len() - i,
    {
        let (s, e) = spans[i];
        let ghost rest = pairs_view(spans@).skip(i as int);
        assert(rest[0] == (s as int, e as int));
        assert(rest.drop_first() =~= pairs_view(spans@).skip(i + 1));
        if s < bk || e < s {
            return false;
        }
        match char_index_of_byte(t, k, bk, s) {
            None => {
                proof {
                    assert(!is_boundary(t@, s as int)) by {
                        if is_boundary(t@, s as int) {
                            let j = choose|j: int| 0 <= j <= t@.len() && byte_offset(t@, j) == s;
                            if j < k {
                                lemma_byte_offset_mono(t@, j, k as int);
                            }
                        }
                    }
                }
                return false;
            },
            Some((ks, bs)) => {
                proof {
                    lemma_char_index_at(t@, ks as int);
                }
                match char_index_of_byte(t, ks, bs, e) {
                    None => {
                        proof {
                            assert(!is_boundary(t@, e as int)) by {
                                if is_boundary(t@, e as int) {
                                    let j = choose|j: int|
                                        0 <= j <= t@.len() && byte_offset(t@, j) == e;
                                    if j < ks {
                                        lemma_byte_offset_mono(t@, j, ks as int);
                                    }
                                }
                            }
                        }
                        return false;
                    },
                    Some((ke, be)) => {
                        proof {
                            lemma_char_index_at(t@, ke as int);
                        }
                        k = ke;
                        bk = be;
                    },
                }
            },
        }
        i = i + 1;
    }
    assert(pairs_view(spans@).skip(i as int) =~= Seq::<(int, int)>::empty());
    true
}

/// `t` with the byte ranges `spans` replaced by `rep`.
fn splice_exec(t: &Vec<char>, spans: &Vec<(usize, usize)>, rep: &Vec<char>) -> (r: Vec<char>)
    requires
        spans_fit(t@, pairs_view(spans@), 0),
    ensures
        r@ == splice_spans(t@, pairs_view(spans@), rep@, 0),
{
    let mut out: Vec<char> = Vec::new();
    let mut i: usize = 0;
    let mut k: usize = 0;
    let mut bk: usize = 0;
    assert(byte_offset(t@, 0) == 0) by {
        assert(t@.take(0) =~= Seq::<char>::empty());
    }
    assert(pairs_view(spans@).skip(0) =~= pairs_view(spans@));
    assert(out@ =~= Seq::<char>::empty());
    while i < spans.len()
        invariant
            i <= spans@.len(),
            k <= t@.len(),
            bk == byte_offset(t@, k as int),
            spans_fit(t@, pairs_view(spans@).skip(i as int), bk as int),
            out@ + splice_spans(t@, pairs_view(spans@).skip(i as int), rep@, k as int)
                == splice_spans(t@, pairs_view(spans@), rep@, 0),
        decreases spans@.len() - i,
    {
        let (s, e) = spans[i];
        let ghost rest = pairs_view(spans@).skip(i as int);
        assert(rest[0] == (s as int, e as int));
        assert(rest.drop_first() =~= pairs_view(spans@).skip(i + 1));
        let found_s = char_index_of_byte(t, k, bk, s);
        let (ks, bs) = match found_s {
            Some(x) => x,
            None => {
                proof {
                    let j = choose|j: int| 0 <= j <= t@.len() && byte_offset(t@, j) == s;
                    if j < k {
                        lemma_byte_offset_mono(t@, j, k as int);
                    }
                }
                return out;
            },
        };
        proof {
            lemma_char_index_at(t@, ks as int);
        }
        let found_e = char_index_of_byte(t, ks, bs, e);
        let (ke, be) = match found_e {
            Some(x) => x,
            None => {
                proof {
                    let j = choose|j: int| 0 <= j <= t@.len() && byte_offset(t@, j) == e;
                    if j < ks {
                        lemma_byte_offset_mono(t@, j, ks as int);
                    }
                }
                return out;
            },
        };
        proof {
            lemma_char_index_at(t@, ke as int);
        }
        let ghost before = out@;
        extend_range(&mut out, t, k, ks);
        extend_all(&mut out, rep);
        assert(out@ + splice_spans(t@, rest.drop_first(), rep@, ke as int) =~= before
            + splice_spans(t@, rest, rep@, k as int));
        k = ke;
        bk = be;
        i = i + 1;
    }
    extend_range(&mut out, t, k, t.len());
    assert(pairs_view(spans@).skip(i as int) =~= Seq::<(int, int)>::empty());
    assert(t@.subrange(k as int, t@.len() as int) =~= t@.skip(k as int));
    out
}

// ---------------------------------------------------------------------------
// The find bar
// ---------------------------------------------------------------------------

/// The match counter the find bar shows: `current/total`, counting from one, with the
/// current match clamped to the last one; `0/0` when there is no match.
pub open spec fn counter_spec(current: nat, total: nat) -> Seq<char> {
    if total == 0 {
        seq!['0', '/', '0']
    } else {
        dec((if current < total { current } else { (total - 1) as nat }) + 1) + seq!['/'] + dec(total)
    }
}

/// The find bar's match counter (see `counter_spec`).
pub fn match_counter(current: usize, total: usize) -> (r: String)
    ensures
        r@ == counter_spec(current as nat, total as nat),
{
    let mut out: Vec<char> = Vec::new();
    if total == 0 {
        out.push('0');
        out.push('/');
        out.push('0');
        assert(out@ =~= seq!['0', '/', '0']);
    } else {
        let cur = if current < total {
            current
        } else {
            total - 1
        };
        push_decimal(&mut out, (cur + 1) as u64);
        out.push('/');
        push_decimal(&mut out, total as u64);
    }
    string_of(&out)
}

/// The match after `current`, wrapping to the first.
pub fn next_match(current: usize, total: usize) -> (r: usize)
    requires
        total > 0,
        current < usize::MAX,
    ensures
        r == (current + 1) % (total as int),
        r < total,
{
    (current + 1) % total
}

/// The match before `current`, wrapping to the last.
pub fn prev_match(current: usize, total: usize) -> (r: usize)
    requires
        total > 0,
        current + total <= usize::MAX,
    ensures
        r == (current + total - 1) % (total as int),
        r < total,
{
    (current + total - 1) % total
}

/// The character index at byte offset `b` of `content`, when `b` falls between two
/// characters (or at either end).
pub fn char_index_for_byte(content: &str, b: usize) -> (r: Option<usize>)
    ensures
        r matches Some(k) ==> is_boundary(content@, b as int) && k == char_index_at(content@, b as int),
        r is None ==> !is_boundary(content@, b as int),
{
    let t = chars_of(content);
    assert(t@.take(0) =~= Seq::<char>::empty());
    match char_index_of_byte(&t, 0, 0, b) {
        Some((j, _)) => {
            proof {
                lemma_char_index_at(t@, j as int);
            }
            Some(j)
        },
        None => None,
    }
}

/// The match the find bar points at: the `current`-th, or the last one when `current`
/// is past the end; `None` when there is no match.
pub open spec fn current_span(text: Seq<char>, query: Seq<char>, case_sensitive: bool, current: nat) -> Option<(int, int)> {
    let spans = find_all_spec(text, query, case_sensitive);
    if spans.len() == 0 {
        None
    } else {
        Some(spans[if current < spans.len() { current as int } else { spans.len() - 1 }])
    }
}

/// The current match can be found and replaced: the search fits in memory and the
/// match's byte range falls between characters of `text`.
pub open spec fn replace_one_ok(text: Seq<char>, query: Seq<char>, case_sensitive: bool, current: nat) -> bool {
    &&& find_all_fits(text, query, case_sensitive)
    &&& match current_span(text, query, case_sensitive, current) {
        Some((a, b)) => is_boundary(text, a) && is_boundary(text, b),
        None => true,
    }
}

/// `text` with the current match replaced by `r`; `None` when there is no match.
pub open spec fn replace_one_spec(text: Seq<char>, query: Seq<char>, r: Seq<char>, case_sensitive: bool, current: nat) -> Option<Seq<char>> {
    match current_span(text, query, case_sensitive, current) {
        Some((a, b)) => Some(text.take(char_index_at(text, a)) + r + text.skip(char_index_at(text, b))),
        None => None,
    }
}

/// Replaces the match the find bar points at.  `Ok(None)` when there is no match;
/// `Err(())` when the match cannot be replaced (see `replace_one_ok`).
pub fn replace_current(text: &str, find: &FindReplaceState) -> (r: Result<Option<String>, ()>)
    ensures
        r is Err <==> !replace_one_ok(text@, find.query@, find.case_sensitive, find.current_match as nat),
        r matches Ok(x) ==> match x {
            Some(t) => replace_one_spec(text@, find.query@, find.replace_with@, find.case_sensitive, find.current_match as nat) == Some(t@),
            None => replace_one_spec(text@, find.query@, find.replace_with@, find.case_sensitive, find.current_match as nat) is None,
        },
{
    let matches = match find_all_checked(text, find.query.as_str(), find.case_sensitive) {
        Some(m) => m,
        None => return Err(()),
    };
    if matches.len() == 0 {
        return Ok(None);
    }
    let idx = if find.current_match < matches.len() {
        find.current_match
    } else {
        matches.len() - 1
    };
    let (bs, be) = matches[idx];
    assert(pairs_view(matches@)[idx as int] == (bs as int, be as int));
    let a = match char_index_for_byte(text, bs) {
        Some(a) => a,
        None => return Err(()),
    };
    let b = match char_index_for_byte(text, be) {
        Some(b) => b,
        None => return Err(()),
    };
    let t = chars_of(text);
    proof {
        assert(a <= t@.len() && b <= t@.len()) by {
            let ka = choose|k: int| 0 <= k <= t@.len() && byte_offset(t@, k) == bs;
            let kb = choose|k: int| 0 <= k <= t@.len() && byte_offset(t@, k) == be;
        }
    }
    let mut out: Vec<char> = Vec::new();
    extend_range(&mut out, &t, 0, a);
    extend_str(&mut out, find.replace_with.as_str());
    extend_range(&mut out, &t, b, t.len());
    assert(out@ =~= t@.take(a as int) + find.replace_with@ + t@.skip(b as int));
    Ok(Some(string_of(&out)))
}

} // verus!
