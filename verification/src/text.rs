//! Character-level text model shared by the editing, search and link modules.
//!
//! Text is modelled as a `Seq<char>` (the view of `str` and `String`).  Byte
//! offsets, where the public API speaks of them, are derived from the UTF-8
//! width of each character.
use vstd::prelude::*;

verus! {

// ---------------------------------------------------------------------------
// UTF-8 widths and byte offsets
// ---------------------------------------------------------------------------

/// Number of bytes the UTF-8 encoding of `c` occupies.
pub open spec fn char_width(c: char) -> nat {
    let u = c as u32;
    if u < 0x80 {
        1
    } else if u < 0x800 {
        2
    } else if u < 0x10000 {
        3
    } else {
        4
    }
}

/// Number of bytes of the UTF-8 encoding of `s`.
pub open spec fn byte_len(s: Seq<char>) -> nat
    decreases s.len(),
{
    if s.len() == 0 {
        0
    } else {
        byte_len(s.drop_last()) + char_width(s.last())
    }
}

/// Byte offset of the character at index `i` of `s`.
pub open spec fn byte_offset(s: Seq<char>, i: int) -> nat {
    byte_len(s.take(i))
}

/// `s` holds only ASCII characters.
pub open spec fn all_ascii(s: Seq<char>) -> bool {
    forall|i: int| 0 <= i < s.len() ==> (#[trigger] s[i] as u32) < 0x80
}

pub proof fn lemma_byte_len_concat(a: Seq<char>, b: Seq<char>)
    ensures
        byte_len(a + b) == byte_len(a) + byte_len(b),
    decreases b.len(),
{
    if b.len() == 0 {
        assert(a + b =~= a);
    } else {
        lemma_byte_len_concat(a, b.drop_last());
        assert((a + b).drop_last() =~= a + b.drop_last());
    }
}

pub proof fn lemma_byte_len_ge_len(s: Seq<char>)
    ensures
        byte_len(s) >= s.len(),
    decreases s.len(),
{
    if s.len() > 0 {
        lemma_byte_len_ge_len(s.drop_last());
    }
}

pub proof fn lemma_byte_len_ascii(s: Seq<char>)
    requires
        all_ascii(s),
    ensures
        byte_len(s) == s.len(),
    decreases s.len(),
{
    if s.len() > 0 {
        assert((s[s.len() - 1] as u32) < 0x80);
        lemma_byte_len_ascii(s.drop_last());
    }
}

/// Byte offsets grow with the character index.
pub proof fn lemma_byte_offset_mono(s: Seq<char>, i: int, j: int)
    requires
        0 <= i <= j <= s.len(),
    ensures
        byte_offset(s, i) <= byte_offset(s, j),
        byte_offset(s, j) - byte_offset(s, i) >= j - i,
{
    lemma_byte_len_concat(s.take(i), s.subrange(i, j));
    assert(s.take(i) + s.subrange(i, j) =~= s.take(j));
    lemma_byte_len_ge_len(s.subrange(i, j));
}

pub proof fn lemma_byte_offset_step(s: Seq<char>, i: int)
    requires
        0 <= i < s.len(),
    ensures
        byte_offset(s, i + 1) == byte_offset(s, i) + char_width(s[i]),
{
    assert(s.take(i + 1).drop_last() =~= s.take(i));
}

/// Width in bytes of `c` when encoded as UTF-8.
pub fn utf8_width(c: char) -> (w: usize)
    ensures
        w == char_width(c),
{
    let u = c as u32;
    if u < 0x80 {
        1
    } else if u < 0x800 {
        2
    } else if u < 0x10000 {
        3
    } else {
        4
    }
}

// ---------------------------------------------------------------------------
// Conversions between `str`/`String` and character vectors
// ---------------------------------------------------------------------------

/// The characters of `s`, in order.
pub fn chars_of(s: &str) -> (v: Vec<char>)
    ensures
        v@ == s@,
{
    let mut v: Vec<char> = Vec::new();
    for c in it: s.chars()
        invariant
            v@ == it.seq().take(it.index() as int),
    {
        v.push(c);
    }
    v
}

/// Appends one character to a string with `String::push`.  Claimed: afterwards the string
/// holds its former characters followed by `c`.
#[verifier::external_body]
pub(crate) fn push_char(s: &mut String, c: char)
    ensures
        final(s)@ == old(s)@.push(c),
{
    s.push(c);
}

/// The string made of the characters `v[from..to]`.
pub fn string_of_range(v: &Vec<char>, from: usize, to: usize) -> (s: String)
    requires
        from <= to <= v@.len(),
    ensures
        s@ == v@.subrange(from as int, to as int),
{
    let mut s = String::new();
    let mut i = from;
    while i < to
        invariant
            from <= i <= to <= v@.len(),
            s@ == v@.subrange(from as int, i as int),
        decreases to - i,
    {
        push_char(&mut s, v[i]);
        assert(v@.subrange(from as int, i + 1) =~= v@.subrange(from as int, i as int).push(v@[i as int]));
        i = i + 1;
    }
    s
}

/// The string made of all characters of `v`.
pub fn string_of(v: &Vec<char>) -> (s: String)
    ensures
        s@ == v@,
{
    let s = string_of_range(v, 0, v.len());
    assert(v@.subrange(0, v@.len() as int) =~= v@);
    s
}

/// Appends `src[from..to]` to `out`.
pub fn extend_range(out: &mut Vec<char>, src: &Vec<char>, from: usize, to: usize)
    requires
        from <= to <= src@.len(),
    ensures
        final(out)@ == old(out)@ + src@.subrange(from as int, to as int),
{
    let mut i = from;
    while i < to
        invariant
            from <= i <= to <= src@.len(),
            out@ == old(out)@ + src@.subrange(from as int, i as int),
        decreases to - i,
    {
        out.push(src[i]);
        assert(src@.subrange(from as int, i + 1) =~= src@.subrange(from as int, i as int).push(
            src@[i as int],
        ));
        i = i + 1;
    }
}

/// Appends the characters of `s` to `out`.
pub fn extend_str(out: &mut Vec<char>, s: &str)
    ensures
        final(out)@ == old(out)@ + s@,
{
    let v = chars_of(s);
    extend_all(out, &v);
}

/// Appends all of `src` to `out`.
pub fn extend_all(out: &mut Vec<char>, src: &Vec<char>)
    ensures
        final(out)@ == old(out)@ + src@,
{
    extend_range(out, src, 0, src.len());
    assert(src@.subrange(0, src@.len() as int) =~= src@);
}

/// Number of bytes of the UTF-8 encoding of `v[from..to]`.
pub fn byte_len_of_range(v: &Vec<char>, from: usize, to: usize) -> (n: usize)
    requires
        from <= to <= v@.len(),
        byte_len(v@.subrange(from as int, to as int)) <= usize::MAX,
    ensures
        n == byte_len(v@.subrange(from as int, to as int)),
{
    let mut n: usize = 0;
    let mut i = from;
    while i < to
        invariant
            from <= i <= to <= v@.len(),
            n == byte_len(v@.subrange(from as int, i as int)),
            byte_len(v@.subrange(from as int, to as int)) <= usize::MAX,
        decreases to - i,
    {
        proof {
            assert(v@.subrange(from as int, i + 1).drop_last() =~= v@.subrange(from as int, i as int));
            lemma_byte_len_concat(v@.subrange(from as int, i + 1), v@.subrange(i + 1, to as int));
            assert(v@.subrange(from as int, i + 1) + v@.subrange(i + 1, to as int) =~= v@.subrange(
                from as int,
                to as int,
            ));
        }
        n = n + utf8_width(v[i]);
        i = i + 1;
    }
    n
}

// ---------------------------------------------------------------------------
// Lowercasing (`str::to_lowercase`)
// ---------------------------------------------------------------------------

/// What `str::to_lowercase` returns for a string with the characters `s`.
pub uninterp spec fn lowercase(s: Seq<char>) -> Seq<char>;

/// `str::to_lowercase`. Claimed: the result's characters are `lowercase(s@)`, a function of the
/// characters of `s` alone. Unicode case mapping itself is not stated.
#[verifier::external_body]
pub(crate) fn to_lowercase(s: &str) -> (r: String)
    ensures
        r@ == lowercase(s@),
{
    s.to_lowercase()
}

/// The byte length of the UTF-8 encoding of `v`, or `None` when it exceeds `usize::MAX`.
pub fn byte_len_checked(v: &Vec<char>) -> (r: Option<usize>)
    ensures
        r matches Some(n) ==> n == byte_len(v@),
        r is None ==> byte_len(v@) > usize::MAX,
{
    let mut n: usize = 0;
    let mut i: usize = 0;
    while i < v.len()
        invariant
            i <= v@.len(),
            n == byte_len(v@.take(i as int)),
        decreases v@.len() - i,
    {
        let w = utf8_width(v[i]);
        proof {
            lemma_byte_offset_step(v@, i as int);
        }
        if n > usize::MAX - w {
            proof {
                lemma_byte_offset_mono(v@, i + 1, v@.len() as int);
                assert(v@.take(v@.len() as int) =~= v@);
            }
            return None;
        }
        n = n + w;
        i = i + 1;
    }
    assert(v@.take(v@.len() as int) =~= v@);
    Some(n)
}

// ---------------------------------------------------------------------------
// Whitespace and trimming (`char::is_whitespace`, `str::trim*`)
// ---------------------------------------------------------------------------

/// The Unicode `White_Space` property, which `char::is_whitespace` tests.
pub open spec fn is_white(c: char) -> bool {
    let u = c as u32;
    ||| 0x09 <= u <= 0x0d
    ||| u == 0x20
    ||| u == 0x85
    ||| u == 0xa0
    ||| u == 0x1680
    ||| 0x2000 <= u <= 0x200a
    ||| u == 0x2028
    ||| u == 0x2029
    ||| u == 0x202f
    ||| u == 0x205f
    ||| u == 0x3000
}

/// Tests the Unicode `White_Space` property of `c`.
pub fn is_whitespace(c: char) -> (b: bool)
    ensures
        b == is_white(c),
{
    let u = c as u32;
    (0x09 <= u && u <= 0x0d) || u == 0x20 || u == 0x85 || u == 0xa0 || u == 0x1680 || (0x2000
        <= u && u <= 0x200a) || u == 0x2028 || u == 0x2029 || u == 0x202f || u == 0x205f || u
        == 0x3000
}

/// Number of leading characters of `s` satisfying `White_Space`.
pub open spec fn lead_white(s: Seq<char>) -> nat
    decreases s.len(),
{
    if s.len() > 0 && is_white(s[0]) {
        1 + lead_white(s.drop_first())
    } else {
        0
    }
}

/// Number of trailing characters of `s` satisfying `White_Space`.
pub open spec fn trail_white(s: Seq<char>) -> nat
    decreases s.len(),
{
    if s.len() > 0 && is_white(s.last()) {
        1 + trail_white(s.drop_last())
    } else {
        0
    }
}

/// `str::trim_start`.
pub open spec fn trim_start(s: Seq<char>) -> Seq<char> {
    s.skip(lead_white(s) as int)
}

/// `str::trim_end`.
pub open spec fn trim_end(s: Seq<char>) -> Seq<char> {
    s.take(s.len() - trail_white(s))
}

/// `str::trim`.
pub open spec fn trim(s: Seq<char>) -> Seq<char> {
    trim_end(trim_start(s))
}

pub proof fn lemma_lead_white(s: Seq<char>)
    ensures
        lead_white(s) <= s.len(),
        forall|i: int| 0 <= i < lead_white(s) ==> is_white(#[trigger] s[i]),
        lead_white(s) < s.len() ==> !is_white(s[lead_white(s) as int]),
    decreases s.len(),
{
    if s.len() > 0 && is_white(s[0]) {
        lemma_lead_white(s.drop_first());
        assert forall|i: int| 0 <= i < lead_white(s) implies is_white(#[trigger] s[i]) by {
            if i > 0 {
                assert(s[i] == s.drop_first()[i - 1]);
            }
        }
    }
}

pub proof fn lemma_trail_white(s: Seq<char>)
    ensures
        trail_white(s) <= s.len(),
        forall|i: int| s.len() - trail_white(s) <= i < s.len() ==> is_white(#[trigger] s[i]),
        trail_white(s) < s.len() ==> !is_white(s[s.len() - trail_white(s) - 1]),
    decreases s.len(),
{
    if s.len() > 0 && is_white(s.last()) {
        lemma_trail_white(s.drop_last());
        assert forall|i: int| s.len() - trail_white(s) <= i < s.len() implies is_white(
            #[trigger] s[i],
        ) by {
            if i < s.len() - 1 {
                assert(s[i] == s.drop_last()[i]);
            }
        }
    }
}

/// Index of the first non-whitespace character of `v[from..to]` (or `to`).
pub fn skip_white_forward(v: &Vec<char>, from: usize, to: usize) -> (r: usize)
    requires
        from <= to <= v@.len(),
    ensures
        r == from + lead_white(v@.subrange(from as int, to as int)),
{
    let mut i = from;
    while i < to && is_whitespace(v[i])
        invariant
            from <= i <= to <= v@.len(),
            lead_white(v@.subrange(from as int, to as int)) == (i - from) + lead_white(
                v@.subrange(i as int, to as int),
            ),
        decreases to - i,
    {
        assert(v@.subrange(i as int, to as int).drop_first() =~= v@.subrange(i + 1, to as int));
        i = i + 1;
    }
    i
}

/// Index one past the last non-whitespace character of `v[from..to]` (or `from`).
pub fn skip_white_backward(v: &Vec<char>, from: usize, to: usize) -> (r: usize)
    requires
        from <= to <= v@.len(),
    ensures
        r == to - trail_white(v@.subrange(from as int, to as int)),
{
    let mut j = to;
    while j > from && is_whitespace(v[j - 1])
        invariant
            from <= j <= to <= v@.len(),
            trail_white(v@.subrange(from as int, to as int)) == (to - j) + trail_white(
                v@.subrange(from as int, j as int),
            ),
        decreases j - from,
    {
        assert(v@.subrange(from as int, j as int).drop_last() =~= v@.subrange(
            from as int,
            j - 1,
        ));
        j = j - 1;
    }
    j
}

/// `str::trim` applied to `v[from..to]`, as the bounds of the trimmed part.
pub fn trim_bounds(v: &Vec<char>, from: usize, to: usize) -> (r: (usize, usize))
    requires
        from <= to <= v@.len(),
    ensures
        from <= r.0 <= r.1 <= to,
        v@.subrange(r.0 as int, r.1 as int) == trim(v@.subrange(from as int, to as int)),
{
    let a = skip_white_forward(v, from, to);
    proof {
        lemma_lead_white(v@.subrange(from as int, to as int));
    }
    let b = skip_white_backward(v, a, to);
    proof {
        let s = v@.subrange(from as int, to as int);
        lemma_lead_white(s);
        assert(trim_start(s) =~= v@.subrange(a as int, to as int));
        lemma_trail_white(v@.subrange(a as int, to as int));
        assert(trim_end(trim_start(s)) =~= v@.subrange(a as int, b as int));
    }
    (a, b)
}

// ---------------------------------------------------------------------------
// Prefixes, suffixes, occurrences
// ---------------------------------------------------------------------------

pub open spec fn starts_with(s: Seq<char>, p: Seq<char>) -> bool {
    p.len() <= s.len() && s.take(p.len() as int) == p
}

pub open spec fn ends_with(s: Seq<char>, p: Seq<char>) -> bool {
    p.len() <= s.len() && s.skip(s.len() - p.len()) == p
}

/// `p` occurs in `s` at index `i`.
pub open spec fn occurs_at(s: Seq<char>, p: Seq<char>, i: int) -> bool {
    0 <= i && i + p.len() <= s.len() && s.subrange(i, i + p.len()) == p
}

/// `c` occurs in `s`.
pub open spec fn has_char(s: Seq<char>, c: char) -> bool {
    exists|i: int| 0 <= i < s.len() && s[i] == c
}

/// Index of the first occurrence of `p` in `s` at or after `from`.
pub open spec fn find_from(s: Seq<char>, p: Seq<char>, from: int) -> Option<int>
    decreases s.len() + 1 - from,
{
    if from < 0 || from + p.len() > s.len() {
        None
    } else if occurs_at(s, p, from) {
        Some(from)
    } else {
        find_from(s, p, from + 1)
    }
}

pub proof fn lemma_find_from(s: Seq<char>, p: Seq<char>, from: int)
    requires
        0 <= from,
    ensures
        find_from(s, p, from) matches Some(i) ==> from <= i && occurs_at(s, p, i) && forall|
            j: int,
        |
            from <= j < i ==> !occurs_at(s, p, j),
        find_from(s, p, from) is None ==> forall|j: int| from <= j ==> !occurs_at(s, p, j),
    decreases s.len() + 1 - from,
{
    if from + p.len() > s.len() {
    } else if occurs_at(s, p, from) {
    } else {
        lemma_find_from(s, p, from + 1);
    }
}

/// `v[i..i + p.len()] == p`.
pub fn occurs_at_exec(v: &Vec<char>, p: &Vec<char>, i: usize) -> (b: bool)
    ensures
        b == occurs_at(v@, p@, i as int),
{
    if i > v.len() || p.len() > v.len() - i {
        return false;
    }
    let vlen = v.len();
    let mut k: usize = 0;
    while k < p.len()
        invariant
            vlen == v@.len(),
            i + p@.len() <= v@.len(),
            k <= p@.len(),
            forall|m: int| 0 <= m < k ==> v@[i + m] == p@[m],
        decreases p@.len() - k,
    {
        assert(i + k < vlen);
        if v[i + k] != p[k] {
            assert(v@.subrange(i as int, i + p@.len())[k as int] != p@[k as int]);
            return false;
        }
        k = k + 1;
    }
    assert(v@.subrange(i as int, i + p@.len()) =~= p@);
    true
}

/// `find_from` on character vectors.
pub fn find_from_exec(v: &Vec<char>, p: &Vec<char>, from: usize) -> (r: Option<usize>)
    ensures
        r matches Some(i) ==> find_from(v@, p@, from as int) == Some(i as int),
        r is None ==> find_from(v@, p@, from as int) is None,
{
    if p.len() > v.len() || from > v.len() - p.len() {
        return None;
    }
    let last = v.len() - p.len();
    let mut i = from;
    loop
        invariant
            from <= i <= last,
            last == v@.len() - p@.len(),
            find_from(v@, p@, from as int) == find_from(v@, p@, i as int),
        decreases last - i,
    {
        if occurs_at_exec(v, p, i) {
            return Some(i);
        }
        if i == last {
            assert(find_from(v@, p@, i + 1) is None);
            return None;
        }
        i = i + 1;
    }
}

/// Index of the first `c` in `s` at or after `from`.
pub open spec fn first_index(s: Seq<char>, c: char, from: int) -> Option<int>
    decreases s.len() - from,
{
    if from < 0 || from >= s.len() {
        None
    } else if s[from] == c {
        Some(from)
    } else {
        first_index(s, c, from + 1)
    }
}

pub proof fn lemma_first_index(s: Seq<char>, c: char, from: int)
    requires
        0 <= from,
    ensures
        first_index(s, c, from) matches Some(k) ==> from <= k < s.len() && s[k] == c && forall|
            m: int,
        |
            from <= m < k ==> s[m] != c,
        first_index(s, c, from) is None ==> forall|m: int| from <= m < s.len() ==> s[m] != c,
    decreases s.len() - from,
{
    if from < s.len() && s[from] != c {
        lemma_first_index(s, c, from + 1);
    }
}

/// Absolute index of the first `c` in `v[from..to]`, if any.
pub fn first_index_in(v: &Vec<char>, c: char, from: usize, to: usize) -> (r: Option<usize>)
    requires
        from <= to <= v@.len(),
    ensures
        r matches Some(k) ==> first_index(v@.subrange(from as int, to as int), c, 0) == Some(
            k - from,
        ) && from <= k < to,
        r is None ==> first_index(v@.subrange(from as int, to as int), c, 0) is None,
{
    let ghost sub = v@.subrange(from as int, to as int);
    let mut k = from;
    while k < to
        invariant
            from <= k <= to <= v@.len(),
            sub == v@.subrange(from as int, to as int),
            first_index(sub, c, 0) == first_index(sub, c, k - from),
        decreases to - k,
    {
        if v[k] == c {
            return Some(k);
        }
        k = k + 1;
    }
    None
}

// ---------------------------------------------------------------------------
// Lines
// ---------------------------------------------------------------------------

/// Start of the line holding index `i`: one past the last `'\n'` before `i`, or 0.
pub open spec fn line_start(s: Seq<char>, i: int) -> int
    decreases i,
{
    if i <= 0 {
        0
    } else if s[i - 1] == '\n' {
        i
    } else {
        line_start(s, i - 1)
    }
}

/// End of the line holding index `i`: the first `'\n'` at or after `i`, or `s.len()`.
pub open spec fn line_end(s: Seq<char>, i: int) -> int
    decreases s.len() - i,
{
    if i >= s.len() {
        s.len() as int
    } else if s[i] == '\n' {
        i
    } else {
        line_end(s, i + 1)
    }
}

pub proof fn lemma_line_start(s: Seq<char>, i: int)
    requires
        0 <= i <= s.len(),
    ensures
        0 <= line_start(s, i) <= i,
        line_start(s, i) == 0 || s[line_start(s, i) - 1] == '\n',
        forall|k: int| line_start(s, i) <= k < i ==> s[k] != '\n',
    decreases i,
{
    if i > 0 && s[i - 1] != '\n' {
        lemma_line_start(s, i - 1);
    }
}

pub proof fn lemma_line_end(s: Seq<char>, i: int)
    requires
        0 <= i,
    ensures
        i <= line_end(s, i) || i > s.len(),
        line_end(s, i) <= s.len(),
        line_end(s, i) < s.len() ==> s[line_end(s, i)] == '\n',
        forall|k: int| i <= k < line_end(s, i) ==> s[k] != '\n',
    decreases s.len() - i,
{
    if i < s.len() && s[i] != '\n' {
        lemma_line_end(s, i + 1);
    }
}

/// A characterization of `line_start` by its defining properties.
pub proof fn lemma_line_start_unique(s: Seq<char>, i: int, b: int)
    requires
        0 <= b <= i <= s.len(),
        b == 0 || s[b - 1] == '\n',
        forall|k: int| b <= k < i ==> s[k] != '\n',
    ensures
        line_start(s, i) == b,
    decreases i,
{
    if i > b {
        lemma_line_start_unique(s, i - 1, b);
    }
}

/// A characterization of `line_end` by its defining properties.
pub proof fn lemma_line_end_unique(s: Seq<char>, i: int, e: int)
    requires
        0 <= i <= e <= s.len(),
        e == s.len() || s[e] == '\n',
        forall|k: int| i <= k < e ==> s[k] != '\n',
    ensures
        line_end(s, i) == e,
    decreases e - i,
{
    if i < e {
        lemma_line_end_unique(s, i + 1, e);
    }
}

/// Start of the line holding index `i` (`str::rfind('\n')` on the text before `i`).
pub fn line_start_exec(v: &Vec<char>, i: usize) -> (r: usize)
    requires
        i <= v@.len(),
    ensures
        r == line_start(v@, i as int),
{
    let mut j = i;
    while j > 0 && v[j - 1] != '\n'
        invariant
            j <= i <= v@.len(),
            line_start(v@, i as int) == line_start(v@, j as int),
        decreases j,
    {
        j = j - 1;
    }
    j
}

/// End of the line holding index `i` (`str::find('\n')` on the text after `i`).
pub fn line_end_exec(v: &Vec<char>, i: usize) -> (r: usize)
    requires
        i <= v@.len(),
    ensures
        r == line_end(v@, i as int),
{
    let mut j = i;
    while j < v.len() && v[j] != '\n'
        invariant
            i <= j <= v@.len(),
            line_end(v@, i as int) == line_end(v@, j as int),
        decreases v@.len() - j,
    {
        j = j + 1;
    }
    j
}

/// `str::split('\n')`: the pieces of `s` between newlines.
pub open spec fn split_lines(s: Seq<char>) -> Seq<Seq<char>>
    decreases s.len(),
{
    let e = line_end(s, 0);
    if e >= s.len() || e < 0 {
        seq![s]
    } else {
        seq![s.take(e)] + split_lines(s.skip(e + 1))
    }
}

/// Joins `lines` with `'\n'` between consecutive lines.
pub open spec fn join_lines(lines: Seq<Seq<char>>) -> Seq<char>
    decreases lines.len(),
{
    if lines.len() == 0 {
        seq![]
    } else if lines.len() == 1 {
        lines[0]
    } else {
        lines[0] + seq!['\n'] + join_lines(lines.drop_first())
    }
}

pub proof fn lemma_split_join(s: Seq<char>)
    ensures
        join_lines(split_lines(s)) == s,
        split_lines(s).len() >= 1,
        forall|k: int| 0 <= k < split_lines(s).len() ==> !has_char(#[trigger] split_lines(s)[k], '\n'),
    decreases s.len(),
{
    lemma_line_end(s, 0);
    let e = line_end(s, 0);
    if e >= s.len() {
        assert forall|k: int| 0 <= k < split_lines(s).len() implies !has_char(
            #[trigger] split_lines(s)[k],
            '\n',
        ) by {
            assert(split_lines(s)[k] == s);
        }
    } else {
        let rest = s.skip(e + 1);
        lemma_split_join(rest);
        let ls = split_lines(s);
        assert(ls == seq![s.take(e)] + split_lines(rest));
        assert(ls.drop_first() =~= split_lines(rest));
        assert(join_lines(ls) == s.take(e) + seq!['\n'] + join_lines(split_lines(rest)));
        assert(s.take(e) + seq!['\n'] + rest =~= s);
        assert forall|k: int| 0 <= k < ls.len() implies !has_char(#[trigger] ls[k], '\n') by {
            if k == 0 {
                assert(ls[0] == s.take(e));
            } else {
                assert(ls[k] == split_lines(rest)[k - 1]);
            }
        }
    }
}


/// `s` with `p` inserted after every newline.
pub open spec fn after_newlines(s: Seq<char>, p: Seq<char>) -> Seq<char>
    decreases s.len(),
{
    if s.len() == 0 {
        seq![]
    } else if s[0] == '\n' {
        seq!['\n'] + p + after_newlines(s.drop_first(), p)
    } else {
        seq![s[0]] + after_newlines(s.drop_first(), p)
    }
}

pub proof fn lemma_after_newlines_concat(a: Seq<char>, b: Seq<char>, p: Seq<char>)
    ensures
        after_newlines(a + b, p) == after_newlines(a, p) + after_newlines(b, p),
    decreases a.len(),
{
    if a.len() == 0 {
        assert(a + b =~= b);
    } else {
        lemma_after_newlines_concat(a.drop_first(), b, p);
        assert((a + b).drop_first() =~= a.drop_first() + b);
        assert((a + b)[0] == a[0]);
        if a[0] == '\n' {
            assert(after_newlines(a + b, p) =~= after_newlines(a, p) + after_newlines(b, p));
        } else {
            assert(after_newlines(a + b, p) =~= after_newlines(a, p) + after_newlines(b, p));
        }
    }
}

pub proof fn lemma_after_newlines_plain(a: Seq<char>, p: Seq<char>)
    requires
        !has_char(a, '\n'),
    ensures
        after_newlines(a, p) == a,
    decreases a.len(),
{
    if a.len() > 0 {
        assert(a[0] != '\n');
        assert(!has_char(a.drop_first(), '\n')) by {
            if has_char(a.drop_first(), '\n') {
                let i = choose|i: int| 0 <= i < a.drop_first().len() && a.drop_first()[i] == '\n';
                assert(a[i + 1] == '\n');
            }
        }
        lemma_after_newlines_plain(a.drop_first(), p);
        assert(seq![a[0]] + a.drop_first() =~= a);
    }
}

pub proof fn lemma_after_newlines_len(a: Seq<char>, p: Seq<char>)
    ensures
        after_newlines(a, p).len() >= a.len(),
    decreases a.len(),
{
    if a.len() > 0 {
        lemma_after_newlines_len(a.drop_first(), p);
    }
}

/// Joining lines each prefixed by `p` is prefixing the joined text and every line after a newline.
pub proof fn lemma_join_prefixed(lines: Seq<Seq<char>>, p: Seq<char>)
    requires
        lines.len() >= 1,
        forall|k: int| 0 <= k < lines.len() ==> !has_char(#[trigger] lines[k], '\n'),
    ensures
        join_lines(Seq::new(lines.len(), |i: int| p + lines[i])) == p + after_newlines(
            join_lines(lines),
            p,
        ),
    decreases lines.len(),
{
    let pl = Seq::new(lines.len(), |i: int| p + lines[i]);
    lemma_after_newlines_plain(lines[0], p);
    if lines.len() == 1 {
        assert(join_lines(pl) == pl[0]);
    } else {
        let rest = lines.drop_first();
        assert forall|k: int| 0 <= k < rest.len() implies !has_char(#[trigger] rest[k], '\n') by {
            assert(rest[k] == lines[k + 1]);
        }
        lemma_join_prefixed(rest, p);
        assert(pl.drop_first() =~= Seq::new(rest.len(), |i: int| p + rest[i]));
        lemma_after_newlines_concat(lines[0], seq!['\n'] + join_lines(rest), p);
        lemma_after_newlines_concat(seq!['\n'], join_lines(rest), p);
        assert(after_newlines(seq!['\n'], p) =~= seq!['\n'] + p) by {
            let nl: Seq<char> = seq!['\n'];
            assert(nl.len() == 1);
            assert(nl[0] == '\n');
            assert(nl.drop_first().len() == 0);
            assert(after_newlines(nl.drop_first(), p).len() == 0);
            assert(after_newlines(nl, p) == seq!['\n'] + p + after_newlines(nl.drop_first(), p));
        }
        assert(join_lines(lines) =~= lines[0] + (seq!['\n'] + join_lines(rest)));
        assert(join_lines(pl) =~= p + after_newlines(join_lines(lines), p));
    }
}

/// Splitting joined lines gives back the lines.
pub proof fn lemma_join_split(lines: Seq<Seq<char>>)
    requires
        lines.len() >= 1,
        forall|k: int| 0 <= k < lines.len() ==> !has_char(#[trigger] lines[k], '\n'),
    ensures
        split_lines(join_lines(lines)) == lines,
    decreases lines.len(),
{
    let j = join_lines(lines);
    let l0 = lines[0];
    assert(!has_char(l0, '\n'));
    if lines.len() == 1 {
        assert(j == l0);
        assert forall|k: int| 0 <= k < l0.len() implies l0[k] != '\n' by {
            if l0[k] == '\n' {
                assert(has_char(l0, '\n'));
            }
        }
        lemma_line_end_unique(l0, 0, l0.len() as int);
        assert(split_lines(j) =~= lines);
    } else {
        let rest = lines.drop_first();
        assert forall|k: int| 0 <= k < rest.len() implies !has_char(#[trigger] rest[k], '\n') by {
            assert(rest[k] == lines[k + 1]);
        }
        lemma_join_split(rest);
        assert(j == l0 + seq!['\n'] + join_lines(rest));
        assert forall|k: int| 0 <= k < l0.len() implies j[k] != '\n' by {
            assert(j[k] == l0[k]);
            if l0[k] == '\n' {
                assert(has_char(l0, '\n'));
            }
        }
        assert(j[l0.len() as int] == '\n');
        lemma_line_end_unique(j, 0, l0.len() as int);
        assert(j.take(l0.len() as int) =~= l0);
        assert(j.skip(l0.len() + 1 as int) =~= join_lines(rest));
        assert(split_lines(j) =~= seq![l0] + rest);
        assert(seq![l0] + rest =~= lines);
    }
}

/// Joining one more line.
pub proof fn lemma_join_push(lines: Seq<Seq<char>>, l: Seq<char>)
    ensures
        lines.len() == 0 ==> join_lines(lines.push(l)) == l,
        lines.len() > 0 ==> join_lines(lines.push(l)) == join_lines(lines) + seq!['\n'] + l,
    decreases lines.len(),
{
    if lines.len() == 0 {
        assert(lines.push(l) =~= seq![l]);
    } else if lines.len() == 1 {
        assert(lines.push(l).drop_first() =~= seq![l]);
        assert(join_lines(seq![l]) == l);
    } else {
        lemma_join_push(lines.drop_first(), l);
        assert(lines.push(l).drop_first() =~= lines.drop_first().push(l));
        assert(join_lines(lines.push(l)) =~= join_lines(lines) + seq!['\n'] + l);
    }
}

/// Splits `v[from..to]` at newlines.
pub fn split_lines_exec(v: &Vec<char>, from: usize, to: usize) -> (lines: Vec<Vec<char>>)
    requires
        from <= to <= v@.len(),
    ensures
        lines.deep_view() == split_lines(v@.subrange(from as int, to as int)),
{
    let ghost whole = v@.subrange(from as int, to as int);
    let mut lines: Vec<Vec<char>> = Vec::new();
    let mut start = from;
    loop
        invariant
            from <= start <= to <= v@.len(),
            whole == v@.subrange(from as int, to as int),
            lines.deep_view() + split_lines(v@.subrange(start as int, to as int)) == split_lines(
                whole,
            ),
        decreases to - start,
    {
        let ghost rest = v@.subrange(start as int, to as int);
        let mut e = start;
        while e < to && v[e] != '\n'
            invariant
                start <= e <= to <= v@.len(),
                rest == v@.subrange(start as int, to as int),
                line_end(rest, 0) == line_end(rest, e - start),
            decreases to - e,
        {
            e = e + 1;
        }
        let mut line: Vec<char> = Vec::new();
        extend_range(&mut line, v, start, e);
        assert(line@ =~= v@.subrange(start as int, e as int));
        if e >= to {
            assert(line_end(rest, 0) == rest.len());
            assert(split_lines(rest) == seq![rest]);
            let ghost old_dv = lines.deep_view();
            assert(line.deep_view() =~= line@);
            lines.push(line);
            assert(lines.deep_view() =~= old_dv.push(rest));
            assert(lines.deep_view() =~= old_dv + split_lines(rest));
            return lines;
        }
        assert(line_end(rest, 0) == e - start);
        assert(rest.take(e - start) =~= line@);
        assert(rest.skip(e - start + 1) =~= v@.subrange(e + 1, to as int));
        let ghost old_dv = lines.deep_view();
        let ghost line_v = line@;
        assert(line.deep_view() =~= line@);
        lines.push(line);
        assert(lines.deep_view() =~= old_dv.push(line_v));
        assert(split_lines(rest) == seq![line_v] + split_lines(v@.subrange(e + 1, to as int)));
        assert(lines.deep_view() + split_lines(v@.subrange(e + 1, to as int)) =~= old_dv
            + split_lines(rest));
        start = e + 1;
    }
}

// ---------------------------------------------------------------------------
// Decimal numbers
// ---------------------------------------------------------------------------

/// The ASCII digit for `d < 10`.
pub open spec fn digit_char(d: nat) -> char {
    (('0' as u32) + d) as char
}

/// Decimal representation of `n` (no sign, no leading zeros), as `format!("{}", n)`.
pub open spec fn dec(n: nat) -> Seq<char>
    decreases n,
{
    if n < 10 {
        seq![digit_char(n)]
    } else {
        dec(n / 10).push(digit_char(n % 10))
    }
}

pub proof fn lemma_dec_len(n: nat)
    ensures
        dec(n).len() >= 1,
        all_ascii(dec(n)),
        !has_char(dec(n), '\n'),
    decreases n,
{
    if n >= 10 {
        lemma_dec_len(n / 10);
        let d = dec(n / 10);
        assert forall|i: int| 0 <= i < dec(n).len() implies (#[trigger] dec(n)[i] as u32) < 0x80 by {
            if i < d.len() {
                assert(dec(n)[i] == d[i]);
            }
        }
        assert(!has_char(dec(n), '\n')) by {
            if has_char(dec(n), '\n') {
                let i = choose|i: int| 0 <= i < dec(n).len() && dec(n)[i] == '\n';
                if i < d.len() {
                    assert(dec(n)[i] == d[i]);
                }
            }
        }
    }
}

/// `true` for the characters `'0'..='9'`.
pub open spec fn is_digit(c: char) -> bool {
    '0' <= c && c <= '9'
}

/// Value of a string of decimal digits.
pub open spec fn digits_value(s: Seq<char>) -> nat
    decreases s.len(),
{
    if s.len() == 0 {
        0
    } else {
        digits_value(s.drop_last()) * 10 + ((s.last() as u32) - ('0' as u32)) as nat
    }
}

/// `str::parse::<u32>()` on a non-empty string of ASCII digits, with 0 when it overflows.
pub open spec fn parse_u32_or_zero(s: Seq<char>) -> nat {
    if digits_value(s) <= u32::MAX {
        digits_value(s)
    } else {
        0
    }
}

/// Appends the decimal digits of `n` to `out`.
pub fn push_decimal(out: &mut Vec<char>, n: u64)
    ensures
        final(out)@ == old(out)@ + dec(n as nat),
    decreases n,
{
    if n >= 10 {
        push_decimal(out, n / 10);
    }
    let d = (n % 10) as u32;
    let c = char_from_digit(d);
    out.push(c);
    proof {
        if n < 10 {
            assert(dec(n as nat) =~= seq![digit_char(n as nat)]);
        }
    }
}

/// The ASCII digit for `d < 10`.
pub fn char_from_digit(d: u32) -> (c: char)
    requires
        d < 10,
    ensures
        c == digit_char(d as nat),
{
    if d == 0 {
        '0'
    } else if d == 1 {
        '1'
    } else if d == 2 {
        '2'
    } else if d == 3 {
        '3'
    } else if d == 4 {
        '4'
    } else if d == 5 {
        '5'
    } else if d == 6 {
        '6'
    } else if d == 7 {
        '7'
    } else if d == 8 {
        '8'
    } else {
        '9'
    }
}

/// Value of the digits `v[from..to]`, or `None` when it exceeds `u32::MAX`.
pub fn parse_u32_digits(v: &Vec<char>, from: usize, to: usize) -> (r: Option<u32>)
    requires
        from <= to <= v@.len(),
        forall|k: int| from <= k < to ==> is_digit(#[trigger] v@[k]),
    ensures
        r matches Some(n) ==> n == digits_value(v@.subrange(from as int, to as int)),
        r is None ==> digits_value(v@.subrange(from as int, to as int)) > u32::MAX,
{
    let mut acc: u64 = 0;
    let mut i = from;
    while i < to
        invariant
            from <= i <= to <= v@.len(),
            forall|k: int| from <= k < to ==> is_digit(#[trigger] v@[k]),
            acc == digits_value(v@.subrange(from as int, i as int)),
            acc <= u32::MAX,
        decreases to - i,
    {
        let c = v[i];
        assert(is_digit(v@[i as int]));
        let d = (c as u32) - ('0' as u32);
        assert(v@.subrange(from as int, i + 1).drop_last() =~= v@.subrange(from as int, i as int));
        let next = acc * 10 + (d as u64);
        if next > 0xffff_ffff {
            proof {
                lemma_digits_value_mono(v@.subrange(from as int, to as int), i + 1 - from);
                assert(v@.subrange(from as int, to as int).take(i + 1 - from) =~= v@.subrange(
                    from as int,
                    i + 1,
                ));
            }
            return None;
        }
        acc = next;
        i = i + 1;
    }
    Some(acc as u32)
}

/// The value of a digit string is at least the value of any of its prefixes.
pub proof fn lemma_digits_value_mono(s: Seq<char>, k: int)
    requires
        0 <= k <= s.len(),
    ensures
        digits_value(s.take(k)) <= digits_value(s),
    decreases s.len() - k,
{
    if k < s.len() {
        lemma_digits_value_mono(s, k + 1);
        assert(s.take(k + 1).drop_last() =~= s.take(k));
    } else {
        assert(s.take(k) =~= s);
    }
}

} // verus!
