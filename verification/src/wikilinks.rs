//! `[[target]]` / `[[target|alias]]` links between notes: parsing, resolution by title,
//! the backlink index, preview rendering and the quick switcher's fuzzy matching.
use vstd::prelude::*;
use std::collections::HashMap;
use crate::note::Note;
use crate::text::{
    byte_len, byte_len_checked, byte_len_of_range, byte_offset, lemma_byte_offset_mono, chars_of, extend_range, lowercase, string_of, to_lowercase, find_from, find_from_exec, first_index, first_index_in, has_char,
    lemma_find_from, lemma_first_index, string_of_range, trim, trim_bounds,
};

verus! {

/// A wiki link found in a note.
#[derive(Clone, Debug)]
pub struct WikiLink {
    pub target: String,
    pub alias: Option<String>,
}

/// A link as plain values: its target and its alias.
pub type LinkView = (Seq<char>, Option<Seq<char>>);

impl View for WikiLink {
    type V = LinkView;

    open spec fn view(&self) -> LinkView {
        (
            self.target@,
            match self.alias {
                Some(a) => Some(a@),
                None => None,
            },
        )
    }
}

/// The link's text after `[[` and before `]]`, seen as target and alias: the alias
/// follows the first `|`; both are trimmed.
pub open spec fn parse_link(inner: Seq<char>) -> LinkView {
    match first_index(inner, '|', 0) {
        Some(p) => (trim(inner.take(p)), Some(trim(inner.skip(p + 1)))),
        None => (trim(inner), None),
    }
}

/// `]]`.
pub open spec fn closing() -> Seq<char> {
    seq![']', ']']
}

/// The links of `s` found by a scan that starts at index `i`: each `[[` opens a link
/// that the first following `]]` closes, and the scan resumes after that `]]`.  A link
/// whose target is empty is skipped.  When the text up to that `]]` spans a line break,
/// the `[[` opens no link and the scan goes on from the next character.
pub open spec fn links_from(s: Seq<char>, i: int) -> Seq<LinkView>
    decreases s.len() - i,
{
    if i < 0 || i + 1 >= s.len() {
        seq![]
    } else if s[i] == '[' && s[i + 1] == '[' {
        match find_from(s, closing(), i + 2) {
            Some(j) => {
                proof {
                    lemma_find_from(s, closing(), i + 2);
                }
                let inner = s.subrange(i + 2, j);
                let link = parse_link(inner);
                if has_char(inner, '\n') {
                    links_from(s, i + 1)
                } else if link.0.len() > 0 {
                    seq![link] + links_from(s, j + 2)
                } else {
                    links_from(s, j + 2)
                }
            },
            None => seq![],
        }
    } else {
        links_from(s, i + 1)
    }
}

/// The links of `text`, in order.
pub open spec fn links_of(text: Seq<char>) -> Seq<LinkView> {
    links_from(text, 0)
}

/// Views of a list of links.
pub open spec fn links_view(v: Seq<WikiLink>) -> Seq<LinkView> {
    v.map_values(|l: WikiLink| l@)
}

/// The `[[`…`]]` link whose inner text is `v[from..to]`.
fn parse_link_exec(v: &Vec<char>, from: usize, to: usize) -> (l: WikiLink)
    requires
        from <= to <= v@.len(),
    ensures
        l@ == parse_link(v@.subrange(from as int, to as int)),
{
    let ghost inner = v@.subrange(from as int, to as int);
    match first_index_in(v, '|', from, to) {
        Some(p) => {
            let (a, b) = trim_bounds(v, from, p);
            let (c, d) = trim_bounds(v, p + 1, to);
            proof {
                assert(inner.take(p - from) =~= v@.subrange(from as int, p as int));
                assert(inner.skip(p - from + 1) =~= v@.subrange(p + 1, to as int));
            }
            WikiLink { target: string_of_range(v, a, b), alias: Some(string_of_range(v, c, d)) }
        },
        None => {
            let (a, b) = trim_bounds(v, from, to);
            WikiLink { target: string_of_range(v, a, b), alias: None }
        },
    }
}

/// `v[from..to]` holds a `'\n'`.
fn has_newline(v: &Vec<char>, from: usize, to: usize) -> (b: bool)
    requires
        from <= to <= v@.len(),
    ensures
        b == has_char(v@.subrange(from as int, to as int), '\n'),
{
    let r = first_index_in(v, '\n', from, to);
    proof {
        lemma_first_index(v@.subrange(from as int, to as int), '\n', 0);
    }
    r.is_some()
}

fn closing_exec() -> (v: Vec<char>)
    ensures
        v@ == closing(),
{
    let mut v: Vec<char> = Vec::new();
    v.push(']');
    v.push(']');
    assert(v@ =~= closing());
    v
}

/// Index of the first `]]` of `v` at or after `from`.
fn find_closing(v: &Vec<char>, close: &Vec<char>, from: usize) -> (r: Option<usize>)
    requires
        close@ == closing(),
    ensures
        r matches Some(j) ==> find_from(v@, closing(), from as int) == Some(j as int),
        r is None ==> find_from(v@, closing(), from as int) is None,
{
    find_from_exec(v, close, from)
}

/// Parses all `[[target]]` and `[[target|alias]]` links of `text`.
pub fn extract(text: &str) -> (out: Vec<WikiLink>)
    ensures
        links_view(out@) == links_of(text@),
{
    let v = chars_of(text);
    let close = closing_exec();
    let n = v.len();
    let mut out: Vec<WikiLink> = Vec::new();
    let mut i: usize = 0;
    while n - i > 1
        invariant
            i <= n,
            n == v@.len(),
            v@ == text@,
            close@ == closing(),
            links_of(text@) == links_view(out@) + links_from(v@, i as int),
        decreases n - i,
    {
        if v[i] == '[' && v[i + 1] == '[' {
            match find_closing(&v, &close, i + 2) {
                Some(j) => {
                    proof {
                        lemma_find_from(v@, closing(), i + 2);
                    }
                    let ghost before = links_view(out@);
                    if has_newline(&v, i + 2, j) {
                        i = i + 1;
                    } else {
                        let link = parse_link_exec(&v, i + 2, j);
                        if !link.target.as_str().is_empty() {
                            out.push(link);
                            assert(links_view(out@) =~= before.push(link@));
                        }
                        i = j + 2;
                    }
                },
                None => {
                    assert(links_from(v@, i as int) =~= Seq::<LinkView>::empty());
                    assert(links_view(out@) + Seq::<LinkView>::empty() =~= links_view(out@));
                    return out;
                },
            }
        } else {
            i = i + 1;
        }
    }
    assert(links_view(out@) + Seq::<LinkView>::empty() =~= links_view(out@));
    out
}

// ---------------------------------------------------------------------------
// Resolution of a link target to notes
// ---------------------------------------------------------------------------

/// Note `k` is one that a link to `target` reaches: it is not in the trash and its
/// title equals `target` once both are lowercased.
pub open spec fn reaches(notes: Seq<Note>, target: Seq<char>, k: int) -> bool {
    0 <= k < notes.len() && !notes[k].trashed && lowercase(notes[k].title@) == lowercase(target)
}

/// The indices below `n` of the notes a link to `target` reaches, ascending.
pub open spec fn resolve_upto(notes: Seq<Note>, target: Seq<char>, n: int) -> Seq<int>
    decreases n,
{
    if n <= 0 {
        seq![]
    } else if reaches(notes, target, n - 1) {
        resolve_upto(notes, target, n - 1).push(n - 1)
    } else {
        resolve_upto(notes, target, n - 1)
    }
}

/// The indices of all notes a link to `target` reaches, ascending.
pub open spec fn resolve_spec(notes: Seq<Note>, target: Seq<char>) -> Seq<int> {
    resolve_upto(notes, target, notes.len() as int)
}

/// What the resolved list holds: exactly the reached notes below `n`, each once, ascending.
pub proof fn lemma_resolve_upto(notes: Seq<Note>, target: Seq<char>, n: int)
    requires
        0 <= n <= notes.len(),
    ensures
        forall|k: int| #[trigger]
            resolve_upto(notes, target, n).contains(k) <==> (k < n && reaches(notes, target, k)),
        forall|a: int, b: int|
            0 <= a < b < resolve_upto(notes, target, n).len() ==> #[trigger] resolve_upto(
                notes,
                target,
                n,
            )[a] < #[trigger] resolve_upto(notes, target, n)[b],
        forall|a: int|
            0 <= a < resolve_upto(notes, target, n).len() ==> #[trigger] resolve_upto(
                notes,
                target,
                n,
            )[a] < n,
    decreases n,
{
    if n > 0 {
        lemma_resolve_upto(notes, target, n - 1);
        let prev = resolve_upto(notes, target, n - 1);
        if reaches(notes, target, n - 1) {
            broadcast use vstd::seq_lib::group_seq_properties;

            assert forall|k: int| #[trigger]
                prev.push(n - 1).contains(k) <==> (k < n && reaches(notes, target, k)) by {
                assert(prev.push(n - 1).contains(k) <==> (prev.contains(k) || k == n - 1));
            }
        }
    }
}

/// Indices of the notes whose title equals `target`, compared in lowercase; notes in the
/// trash are left out.
pub fn resolve(notes: &[Note], target: &str) -> (r: Vec<usize>)
    ensures
        r@.map_values(|k: usize| k as int) == resolve_spec(notes@, target@),
{
    let target_lc = to_lowercase(target);
    let mut r: Vec<usize> = Vec::new();
    let mut k: usize = 0;
    while k < notes.len()
        invariant
            k <= notes@.len(),
            target_lc@ == lowercase(target@),
            r@.map_values(|k: usize| k as int) == resolve_upto(notes@, target@, k as int),
        decreases notes@.len() - k,
    {
        let ghost before = r@.map_values(|k: usize| k as int);
        if !notes[k].trashed {
            let title_lc = to_lowercase(notes[k].title.as_str());
            if title_lc == target_lc {
                r.push(k);
                assert(r@.map_values(|k: usize| k as int) =~= before.push(k as int));
            }
        }
        k = k + 1;
    }
    r
}

// ---------------------------------------------------------------------------
// Backlinks
// ---------------------------------------------------------------------------

/// One backlink: the index of the note holding the link, and the link.
pub type BacklinkView = (int, LinkView);

/// The backlinks that note `src` gives note `t` through the first `m` of its links
/// `links`: one per link that reaches `t`, unless `t` is `src` itself.
pub open spec fn link_hits(
    notes: Seq<Note>,
    t: int,
    src: int,
    links: Seq<LinkView>,
    m: int,
) -> Seq<BacklinkView>
    decreases m,
{
    if m <= 0 {
        seq![]
    } else if src != t && reaches(notes, links[m - 1].0, t) {
        link_hits(notes, t, src, links, m - 1).push((src, links[m - 1]))
    } else {
        link_hits(notes, t, src, links, m - 1)
    }
}

/// The backlinks that note `src` gives note `t`; a note in the trash gives none.
pub open spec fn source_hits(notes: Seq<Note>, t: int, src: int) -> Seq<BacklinkView> {
    if notes[src].trashed {
        seq![]
    } else {
        let links = links_of(notes[src].content@);
        link_hits(notes, t, src, links, links.len() as int)
    }
}

/// The backlinks of note `t` from the notes below `n`, by source note, then link order.
pub open spec fn backlinks_upto(notes: Seq<Note>, t: int, n: int) -> Seq<BacklinkView>
    decreases n,
{
    if n <= 0 {
        seq![]
    } else {
        backlinks_upto(notes, t, n - 1) + source_hits(notes, t, n - 1)
    }
}

/// All backlinks of note `t`.
pub open spec fn backlinks_spec(notes: Seq<Note>, t: int) -> Seq<BacklinkView> {
    backlinks_upto(notes, t, notes.len() as int)
}

/// A list of backlinks seen as plain values.
pub open spec fn entries_view(v: Seq<(usize, WikiLink)>) -> Seq<BacklinkView> {
    v.map_values(|e: (usize, WikiLink)| (e.0 as int, e.1@))
}

/// A copy of `l`.
fn copy_link(l: &WikiLink) -> (c: WikiLink)
    ensures
        c@ == l@,
{
    let alias = match &l.alias {
        Some(a) => Some(a.clone()),
        None => None,
    };
    WikiLink { target: l.target.clone(), alias }
}

/// Appends `e` to the list that `index` holds under `key`, starting one if there is none.
fn push_entry(index: &mut HashMap<usize, Vec<(usize, WikiLink)>>, key: usize, e: (usize, WikiLink))
    ensures
        final(index)@.dom() == old(index)@.dom().insert(key),
        forall|t: usize| t != key && old(index)@.contains_key(t) ==> final(index)@[t] == old(index)@[t],
        final(index)@[key]@ == (if old(index)@.contains_key(key) {
            old(index)@[key]@
        } else {
            Seq::empty()
        }).push(e),
{
    broadcast use vstd::std_specs::hash::group_hash_axioms;

    let mut list = match index.remove(&key) {
        Some(l) => l,
        None => Vec::new(),
    };
    list.push(e);
    index.insert(key, list);
}

/// The index from each note to the links that point at it, with the note they come from.
/// Notes in the trash link nowhere; a note's links to itself are left out.
pub fn build_backlink_index(notes: &[Note]) -> (index: HashMap<usize, Vec<(usize, WikiLink)>>)
    ensures
        forall|t: usize| #[trigger]
            index@.contains_key(t) <==> backlinks_spec(notes@, t as int).len() > 0,
        forall|t: usize| #[trigger]
            index@.contains_key(t) ==> entries_view(index@[t]@) == backlinks_spec(
                notes@,
                t as int,
            ),
{
    let mut index: HashMap<usize, Vec<(usize, WikiLink)>> = HashMap::new();
    let mut src: usize = 0;
    while src < notes.len()
        invariant
            src <= notes@.len(),
            forall|t: usize| #[trigger]
                index@.contains_key(t) <==> backlinks_upto(notes@, t as int, src as int).len() > 0,
            forall|t: usize| #[trigger]
                index@.contains_key(t) ==> entries_view(index@[t]@) == backlinks_upto(
                    notes@,
                    t as int,
                    src as int,
                ),
        decreases notes@.len() - src,
    {
        if !notes[src].trashed {
            let links = extract(notes[src].content.as_str());
            let ghost ls = links_of(notes@[src as int].content@);
            let mut j: usize = 0;
            while j < links.len()
                invariant
                    src < notes@.len(),
                    !notes@[src as int].trashed,
                    j <= links@.len(),
                    links_view(links@) == ls,
                    ls == links_of(notes@[src as int].content@),
                    forall|t: usize| #[trigger]
                        index@.contains_key(t) <==> (backlinks_upto(notes@, t as int, src as int)
                            + link_hits(notes@, t as int, src as int, ls, j as int)).len() > 0,
                    forall|t: usize| #[trigger]
                        index@.contains_key(t) ==> entries_view(index@[t]@) == backlinks_upto(
                            notes@,
                            t as int,
                            src as int,
                        ) + link_hits(notes@, t as int, src as int, ls, j as int),
                decreases links@.len() - j,
            {
                let targets = resolve(notes, links[j].target.as_str());
                let ghost l = links@[j as int]@;
                let ghost r = targets@.map_values(|k: usize| k as int);
                proof {
                    assert(ls[j as int] == l);
                    lemma_resolve_upto(notes@, l.0, notes@.len() as int);
                }
                let mut k: usize = 0;
                while k < targets.len()
                    invariant
                        src < notes@.len(),
                        j < links@.len(),
                        k <= targets@.len(),
                        l == links@[j as int]@,
                        r == targets@.map_values(|k: usize| k as int),
                        r == resolve_spec(notes@, l.0),
                        forall|a: int, b: int|
                            0 <= a < b < r.len() ==> #[trigger] r[a] < #[trigger] r[b],
                        forall|t: usize| #[trigger]
                            index@.contains_key(t) <==> (backlinks_upto(
                                notes@,
                                t as int,
                                src as int,
                            ) + link_hits(notes@, t as int, src as int, ls, j as int) + (if t
                                != src && r.take(k as int).contains(t as int) {
                                seq![(src as int, l)]
                            } else {
                                seq![]
                            })).len() > 0,
                        forall|t: usize| #[trigger]
                            index@.contains_key(t) ==> entries_view(index@[t]@) == backlinks_upto(
                                notes@,
                                t as int,
                                src as int,
                            ) + link_hits(notes@, t as int, src as int, ls, j as int) + (if t
                                != src && r.take(k as int).contains(t as int) {
                                seq![(src as int, l)]
                            } else {
                                seq![]
                            }),
                    decreases targets@.len() - k,
                {
                    let tgt = targets[k];
                    proof {
                        broadcast use vstd::seq_lib::group_seq_properties;

                        assert(r.take(k + 1) =~= r.take(k as int).push(tgt as int));
                        assert(!r.take(k as int).contains(tgt as int)) by {
                            if r.take(k as int).contains(tgt as int) {
                                let w = choose|w: int| 0 <= w < k && #[trigger] r.take(k as int)[w] == tgt as int;
                                assert(r[w] < r[k as int]);
                            }
                        }
                    }
                    if tgt != src {
                        let ghost before = index@;
                        let entry = (src, copy_link(&links[j]));
                        push_entry(&mut index, tgt, entry);
                        proof {
                            broadcast use vstd::seq_lib::group_seq_properties;

                            assert forall|t: usize| #[trigger]
                                index@.contains_key(t) implies entries_view(index@[t]@)
                                    == backlinks_upto(notes@, t as int, src as int) + link_hits(
                                    notes@,
                                    t as int,
                                    src as int,
                                    ls,
                                    j as int,
                                ) + (if t != src && r.take(k + 1).contains(t as int) {
                                    seq![(src as int, l)]
                                } else {
                                    seq![]
                                }) by {
                                if t == tgt {
                                    let old_list = if before.contains_key(tgt) {
                                        before[tgt]@
                                    } else {
                                        Seq::empty()
                                    };
                                    assert(entries_view(old_list.push(entry)) =~= entries_view(old_list).push((src as int, l)));
                                    if !before.contains_key(tgt) {
                                        assert(entries_view(old_list) =~= Seq::<BacklinkView>::empty());
                                    }
                                } else if index@.contains_key(t) {
                                    assert(r.take(k + 1).contains(t as int) == r.take(k as int).contains(t as int));
                                }
                            }
                            assert forall|t: usize| #[trigger]
                                index@.contains_key(t) <==> (backlinks_upto(
                                    notes@,
                                    t as int,
                                    src as int,
                                ) + link_hits(notes@, t as int, src as int, ls, j as int) + (if t
                                    != src && r.take(k + 1).contains(t as int) {
                                    seq![(src as int, l)]
                                } else {
                                    seq![]
                                })).len() > 0 by {
                                if t != tgt {
                                    assert(r.take(k + 1).contains(t as int) == r.take(k as int).contains(t as int));
                                }
                            }
                        }
                    } else {
                        proof {
                            broadcast use vstd::seq_lib::group_seq_properties;

                            assert forall|t: usize| (t != src && r.take(k + 1).contains(t as int)) == (t != src && r.take(k as int).contains(t as int)) by {}
                        }
                    }
                    k = k + 1;
                }
                proof {
                    assert(r.take(r.len() as int) =~= r);
                    assert forall|t: usize| #[trigger] link_hits(notes@, t as int, src as int, ls, j + 1)
                        =~= link_hits(notes@, t as int, src as int, ls, j as int) + (if t != src
                            && r.contains(t as int) {
                            seq![(src as int, l)]
                        } else {
                            seq![]
                        }) by {
                        assert(r.contains(t as int) == reaches(notes@, l.0, t as int));
                    }
                }
                j = j + 1;
            }
            proof {
                assert forall|t: usize| #[trigger] backlinks_upto(notes@, t as int, src + 1)
                    == backlinks_upto(notes@, t as int, src as int) + link_hits(notes@, t as int, src as int, ls, ls.len() as int) by {
                }
            }
        } else {
            proof {
                assert forall|t: usize| #[trigger] backlinks_upto(notes@, t as int, src + 1)
                    =~= backlinks_upto(notes@, t as int, src as int) by {
                }
            }
        }
        src = src + 1;
    }
    index
}

// ---------------------------------------------------------------------------
// Preview rendering
// ---------------------------------------------------------------------------

/// What a link shows in the preview: its alias (the text after the first `|`), or its
/// whole inner text.
pub open spec fn display_part(inner: Seq<char>) -> Seq<char> {
    match first_index(inner, '|', 0) {
        Some(p) => inner.skip(p + 1),
        None => inner,
    }
}

/// The preview's form of the link with inner text `inner`: `**[display]**`.
pub open spec fn shown_link(inner: Seq<char>) -> Seq<char> {
    seq!['*', '*', '['] + trim(display_part(inner)) + seq![']', '*', '*']
}

/// Where the link that opens at index `i` of `s` closes: the index of its `]]`, when
/// `[[` stands at `i` and the link's inner text has no line break.
pub open spec fn link_close_at(s: Seq<char>, i: int) -> Option<int> {
    if 0 <= i && i + 1 < s.len() && s[i] == '[' && s[i + 1] == '[' {
        match find_from(s, closing(), i + 2) {
            Some(j) => if has_char(s.subrange(i + 2, j), '\n') {
                None
            } else {
                Some(j)
            },
            None => None,
        }
    } else {
        None
    }
}

/// `s[i..]` with each link replaced by its preview form; all other characters stay.
pub open spec fn render_from(s: Seq<char>, i: int) -> Seq<char>
    decreases s.len() - i,
{
    if i < 0 || i >= s.len() {
        seq![]
    } else {
        match link_close_at(s, i) {
            Some(j) => {
                proof {
                    lemma_find_from(s, closing(), i + 2);
                }
                shown_link(s.subrange(i + 2, j)) + render_from(s, j + 2)
            },
            None => seq![s[i]] + render_from(s, i + 1),
        }
    }
}

/// What `render_for_preview` returns.
pub open spec fn rendered(s: Seq<char>) -> Seq<char> {
    render_from(s, 0)
}

/// Appends the preview form of the link with inner text `v[from..to]` to `out`.
fn push_shown_link(out: &mut Vec<char>, v: &Vec<char>, from: usize, to: usize)
    requires
        from <= to <= v@.len(),
    ensures
        final(out)@ == old(out)@ + shown_link(v@.subrange(from as int, to as int)),
{
    let ghost inner = v@.subrange(from as int, to as int);
    let start = match first_index_in(v, '|', from, to) {
        Some(p) => {
            assert(inner.skip(p - from + 1) =~= v@.subrange(p + 1, to as int));
            p + 1
        },
        None => {
            assert(inner =~= v@.subrange(from as int, to as int));
            from
        },
    };
    assert(display_part(inner) =~= v@.subrange(start as int, to as int));
    let (a, b) = trim_bounds(v, start, to);
    out.push('*');
    out.push('*');
    out.push('[');
    extend_range(out, v, a, b);
    out.push(']');
    out.push('*');
    out.push('*');
    assert(final(out)@ =~= old(out)@ + shown_link(inner));
}

/// Preview form of `markdown`, working character by character.
fn render_for_preview_unicode(markdown: &str) -> (r: String)
    ensures
        r@ == rendered(markdown@),
{
    let v = chars_of(markdown);
    let close = closing_exec();
    let n = v.len();
    let mut out: Vec<char> = Vec::new();
    let mut i: usize = 0;
    while i < n
        invariant
            i <= n,
            n == v@.len(),
            close@ == closing(),
            rendered(v@) == out@ + render_from(v@, i as int),
        decreases n - i,
    {
        let mut link_end: Option<usize> = None;
        if n - i > 1 && v[i] == '[' && v[i + 1] == '[' {
            match find_closing(&v, &close, i + 2) {
                Some(j) => {
                    proof {
                        lemma_find_from(v@, closing(), i + 2);
                    }
                    if !has_newline(&v, i + 2, j) {
                        link_end = Some(j);
                    }
                },
                None => {},
            }
        }
        assert(link_end == match link_close_at(v@, i as int) {
            Some(j) => Some(j as usize),
            None => None::<usize>,
        });
        match link_end {
            Some(j) => {
                proof {
                    lemma_find_from(v@, closing(), i + 2);
                }
                let ghost before = out@;
                push_shown_link(&mut out, &v, i + 2, j);
                assert(before + render_from(v@, i as int) =~= out@ + render_from(v@, j + 2));
                i = j + 2;
            },
            None => {
                let ghost before = out@;
                out.push(v[i]);
                assert(before + render_from(v@, i as int) =~= out@ + render_from(v@, i + 1));
                i = i + 1;
            },
        }
    }
    assert(out@ + render_from(v@, i as int) =~= out@);
    string_of(&out)
}

/// Makes wiki links stand out in the preview: each `[[target]]` or `[[target|alias]]`
/// whose inner text has no line break becomes `**[display]**`, where display is the
/// alias, or the target when there is none, trimmed.
pub fn render_for_preview(markdown: &str) -> (r: String)
    ensures
        r@ == rendered(markdown@),
{
    render_for_preview_unicode(markdown)
}

// ---------------------------------------------------------------------------
// Quick switcher
// ---------------------------------------------------------------------------

/// State of the quick switcher popup.
#[derive(Clone)]
pub struct QuickSwitcherState {
    pub visible: bool,
    pub query: String,
    pub selected: usize,
    pub focus_query: bool,
}

impl Default for QuickSwitcherState {
    fn default() -> (r: Self)
        ensures
            !r.visible,
            r.query@ == Seq::<char>::empty(),
            r.selected == 0,
            !r.focus_query,
    {
        QuickSwitcherState { visible: false, query: String::new(), selected: 0, focus_query: false }
    }
}

impl QuickSwitcherState {
    /// Shows the switcher with an empty query, the first candidate selected and the
    /// query focused.
    pub fn open(&mut self)
        ensures
            final(self).visible,
            final(self).query@ == Seq::<char>::empty(),
            final(self).selected == 0,
            final(self).focus_query,
    {
        self.visible = true;
        self.query = String::new();
        self.selected = 0;
        self.focus_query = true;
    }

    /// Hides the switcher.
    pub fn close(&mut self)
        ensures
            !final(self).visible,
            final(self).query == old(self).query,
            final(self).selected == old(self).selected,
            final(self).focus_query == old(self).focus_query,
    {
        self.visible = false;
    }
}

/// Score of `n` as a subsequence of `h[p..]`, from the needle's `k`-th character on:
/// each needle character is looked for after the previous one's match; the number of
/// characters read to reach it (`steps`) is added, together with the previous `steps`
/// (`last`).  `None` when some needle character is not found.
pub open spec fn subseq_score(h: Seq<char>, n: Seq<char>, k: int, p: int, last: int) -> Option<
    int,
>
    decreases n.len() - k,
{
    if k < 0 || k >= n.len() {
        Some(0)
    } else {
        match first_index(h.skip(p), n[k], 0) {
            Some(q) => match subseq_score(h, n, k + 1, p + q + 1, q + 1) {
                Some(rest) => Some((q + 1) + last + rest),
                None => None,
            },
            None => None,
        }
    }
}

/// Score of an already lowercased needle `n` against an already lowercased haystack
/// `h`: the byte offset of the first occurrence of `n` in `h`; otherwise 1000 plus its
/// subsequence score; `None` when `n` is not even a subsequence of `h`.
pub open spec fn score_spec(h: Seq<char>, n: Seq<char>) -> Option<int> {
    match find_from(h, n, 0) {
        Some(i) => Some(byte_offset(h, i) as i32 as int),
        None => match subseq_score(h, n, 0, 0, 0) {
            Some(s) => Some(1000 + s),
            None => None,
        },
    }
}

/// What `fuzzy_match` returns: `Some(0)` for an empty needle; otherwise the score of the
/// lowercased needle against the lowercased haystack.  Lower is better.
pub open spec fn fuzzy_spec(haystack: Seq<char>, needle: Seq<char>) -> Option<int> {
    if needle.len() == 0 {
        Some(0)
    } else {
        score_spec(lowercase(haystack), lowercase(needle))
    }
}

/// The haystack sizes under which the score is computed without overflow.
pub open spec fn score_fits(h: Seq<char>) -> bool {
    h.len() <= 1_000_000_000 && byte_len(h) <= usize::MAX
}

/// An `i32` result seen as an integer.
pub open spec fn opt_int(r: Option<i32>) -> Option<int> {
    match r {
        Some(x) => Some(x as int),
        None => None,
    }
}

/// The fuzzy score of a lowercased needle against a lowercased haystack.
pub fn fuzzy_score(h_lc: &str, n_lc: &str) -> (r: Option<i32>)
    requires
        score_fits(h_lc@),
    ensures
        opt_int(r) == score_spec(h_lc@, n_lc@),
{
    let hv = chars_of(h_lc);
    let nv = chars_of(n_lc);
    let hn = hv.len();
    match find_from_exec(&hv, &nv, 0) {
        Some(i) => {
            proof {
                lemma_find_from(hv@, nv@, 0);
                lemma_byte_offset_mono(hv@, i as int, hn as int);
                assert(hv@.take(hn as int) =~= hv@);
                assert(hv@.subrange(0, i as int) =~= hv@.take(i as int));
            }
            let b = byte_len_of_range(&hv, 0, i);
            return Some(b as i32);
        },
        None => {},
    }
    let mut p: usize = 0;
    let mut last: i32 = 0;
    let mut score: i32 = 0;
    let mut k: usize = 0;
    while k < nv.len()
        invariant
            hn == hv@.len(),
            hv@ == h_lc@,
            nv@ == n_lc@,
            find_from(hv@, nv@, 0) is None,
            hv@.len() <= 1_000_000_000,
            k <= nv@.len(),
            p <= hn,
            0 <= last <= p,
            0 <= score,
            score + last <= 2 * p,
            subseq_score(hv@, nv@, 0, 0, 0) == match subseq_score(hv@, nv@, k as int, p as int, last as int) {
                Some(x) => Some(score + x),
                None => None,
            },
        decreases nv@.len() - k,
    {
        assert(hv@.subrange(p as int, hn as int) =~= hv@.skip(p as int));
        match first_index_in(&hv, nv[k], p, hn) {
            Some(q) => {
                proof {
                    lemma_first_index(hv@.skip(p as int), nv@[k as int], 0);
                }
                let steps = (q - p + 1) as i32;
                score = score + steps + last;
                last = steps;
                p = q + 1;
            },
            None => {
                return None;
            },
        }
        k = k + 1;
    }
    Some(1000 + score)
}

/// The quick switcher's fuzzy score of `needle` against `haystack`, case-insensitively:
/// lower is better, `None` when there is no match (see `fuzzy_spec`).
pub fn fuzzy_match(haystack: &str, needle: &str) -> (r: Option<i32>)
    requires
        score_fits(lowercase(haystack@)),
    ensures
        opt_int(r) == fuzzy_spec(haystack@, needle@),
{
    if needle.is_empty() {
        return Some(0);
    }
    let h_lc = to_lowercase(haystack);
    let n_lc = to_lowercase(needle);
    fuzzy_score(h_lc.as_str(), n_lc.as_str())
}

/// `fuzzy_match`, or `None` when the lowercased haystack is too large to be scored.
pub fn fuzzy_match_checked(haystack: &str, needle: &str) -> (r: Option<Option<i32>>)
    ensures
        r is None <==> !score_fits(lowercase(haystack@)),
        r matches Some(x) ==> opt_int(x) == fuzzy_spec(haystack@, needle@),
{
    let h_lc = to_lowercase(haystack);
    let hv = chars_of(h_lc.as_str());
    if hv.len() > 1_000_000_000 {
        return None;
    }
    match byte_len_checked(&hv) {
        Some(_) => Some(fuzzy_match(haystack, needle)),
        None => None,
    }
}

// ---------------------------------------------------------------------------
// Laws
// ---------------------------------------------------------------------------

/// `s` holds no `[[`.
pub open spec fn no_link_open(s: Seq<char>) -> bool {
    forall|i: int| 0 <= i && i + 1 < s.len() ==> !(#[trigger] s[i] == '[' && s[i + 1] == '[')
}

proof fn lemma_link_hits_sound(notes: Seq<Note>, t: int, src: int, links: Seq<LinkView>, m: int)
    requires
        0 <= m <= links.len(),
    ensures
        forall|k: int|
            0 <= k < link_hits(notes, t, src, links, m).len() ==> {
                let e = #[trigger] link_hits(notes, t, src, links, m)[k];
                &&& e.0 == src
                &&& src != t
                &&& reaches(notes, e.1.0, t)
            },
    decreases m,
{
    if m > 0 {
        lemma_link_hits_sound(notes, t, src, links, m - 1);
        let prev = link_hits(notes, t, src, links, m - 1);
        if src != t && reaches(notes, links[m - 1].0, t) {
            assert forall|k: int| 0 <= k < prev.push((src, links[m - 1])).len() implies {
                let e = #[trigger] prev.push((src, links[m - 1]))[k];
                &&& e.0 == src
                &&& src != t
                &&& reaches(notes, e.1.0, t)
            } by {
                if k < prev.len() {
                    assert(prev.push((src, links[m - 1]))[k] == prev[k]);
                }
            }
        }
    }
}

proof fn lemma_backlinks_upto_sound(notes: Seq<Note>, t: int, n: int)
    requires
        0 <= n <= notes.len(),
    ensures
        forall|k: int|
            0 <= k < backlinks_upto(notes, t, n).len() ==> {
                let e = #[trigger] backlinks_upto(notes, t, n)[k];
                &&& 0 <= e.0 < n
                &&& e.0 != t
                &&& !notes[e.0].trashed
                &&& reaches(notes, e.1.0, t)
            },
    decreases n,
{
    if n > 0 {
        lemma_backlinks_upto_sound(notes, t, n - 1);
        let prev = backlinks_upto(notes, t, n - 1);
        let here = source_hits(notes, t, n - 1);
        if !notes[n - 1].trashed {
            let links = links_of(notes[n - 1].content@);
            lemma_link_hits_sound(notes, t, n - 1, links, links.len() as int);
        }
        assert forall|k: int| 0 <= k < (prev + here).len() implies {
            let e = #[trigger] (prev + here)[k];
            &&& 0 <= e.0 < n
            &&& e.0 != t
            &&& !notes[e.0].trashed
            &&& reaches(notes, e.1.0, t)
        } by {
            if k >= prev.len() {
                assert((prev + here)[k] == here[k - prev.len()]);
            }
        }
    }
}

/// Every backlink of note `t` comes from another note that is not in the trash, through a
/// link whose target reaches `t`.
pub proof fn lemma_backlinks_sound(notes: Seq<Note>, t: int)
    ensures
        forall|k: int|
            0 <= k < backlinks_spec(notes, t).len() ==> {
                let e = #[trigger] backlinks_spec(notes, t)[k];
                &&& 0 <= e.0 < notes.len()
                &&& e.0 != t
                &&& !notes[e.0].trashed
                &&& reaches(notes, e.1.0, t)
            },
{
    lemma_backlinks_upto_sound(notes, t, notes.len() as int);
}

/// A note in the trash has no backlinks, and none of its links is a backlink elsewhere.
pub proof fn lemma_trashed_has_no_backlinks(notes: Seq<Note>, t: int)
    requires
        0 <= t < notes.len(),
        notes[t].trashed,
    ensures
        backlinks_spec(notes, t).len() == 0,
{
    lemma_backlinks_sound(notes, t);
    if backlinks_spec(notes, t).len() > 0 {
        assert(reaches(notes, backlinks_spec(notes, t)[0].1.0, t));
    }
}

proof fn lemma_links_from_plain(s: Seq<char>, i: int)
    requires
        no_link_open(s),
    ensures
        links_from(s, i).len() == 0,
    decreases s.len() - i,
{
    if 0 <= i && i + 1 < s.len() {
        assert(!(s[i] == '[' && s[i + 1] == '['));
        lemma_links_from_plain(s, i + 1);
    }
}

/// Text without `[[` holds no links.
pub proof fn lemma_extract_plain(s: Seq<char>)
    requires
        no_link_open(s),
    ensures
        links_of(s) == Seq::<LinkView>::empty(),
{
    lemma_links_from_plain(s, 0);
    assert(links_of(s) =~= Seq::<LinkView>::empty());
}

proof fn lemma_render_from_plain(s: Seq<char>, i: int)
    requires
        no_link_open(s),
        0 <= i <= s.len(),
    ensures
        render_from(s, i) == s.skip(i),
    decreases s.len() - i,
{
    if i < s.len() {
        if i + 1 < s.len() {
            assert(!(s[i] == '[' && s[i + 1] == '['));
        }
        assert(link_close_at(s, i) is None);
        lemma_render_from_plain(s, i + 1);
        assert(seq![s[i]] + s.skip(i + 1) =~= s.skip(i));
    } else {
        assert(s.skip(i) =~= Seq::<char>::empty());
    }
}

/// The preview leaves text without `[[` unchanged.
pub proof fn lemma_render_plain(s: Seq<char>)
    requires
        no_link_open(s),
    ensures
        rendered(s) == s,
{
    lemma_render_from_plain(s, 0);
    assert(s.skip(0) =~= s);
}


proof fn lemma_link_hits_complete(
    notes: Seq<Note>,
    t: int,
    src: int,
    links: Seq<LinkView>,
    m: int,
    j: int,
)
    requires
        0 <= j < m <= links.len(),
        src != t,
        reaches(notes, links[j].0, t),
    ensures
        link_hits(notes, t, src, links, m).contains((src, links[j])),
    decreases m,
{
    let prev = link_hits(notes, t, src, links, m - 1);
    if j < m - 1 {
        lemma_link_hits_complete(notes, t, src, links, m - 1, j);
        let a = choose|a: int| 0 <= a < prev.len() && prev[a] == (src, links[j]);
        if reaches(notes, links[m - 1].0, t) {
            assert(prev.push((src, links[m - 1]))[a] == prev[a]);
        }
    } else {
        assert(prev.push((src, links[m - 1]))[prev.len() as int] == (src, links[j]));
    }
}

proof fn lemma_backlinks_upto_complete(notes: Seq<Note>, t: int, n: int, src: int, j: int)
    requires
        0 <= src < n <= notes.len(),
        !notes[src].trashed,
        0 <= j < links_of(notes[src].content@).len(),
        src != t,
        reaches(notes, links_of(notes[src].content@)[j].0, t),
    ensures
        backlinks_upto(notes, t, n).contains((src, links_of(notes[src].content@)[j])),
    decreases n,
{
    let e = (src, links_of(notes[src].content@)[j]);
    let prev = backlinks_upto(notes, t, n - 1);
    let here = source_hits(notes, t, n - 1);
    assert(backlinks_upto(notes, t, n) == prev + here);
    if src < n - 1 {
        lemma_backlinks_upto_complete(notes, t, n - 1, src, j);
        let a = choose|a: int| 0 <= a < prev.len() && prev[a] == e;
        assert((prev + here)[a] == e);
    } else {
        let links = links_of(notes[src].content@);
        lemma_link_hits_complete(notes, t, src, links, links.len() as int, j);
        let a = choose|a: int| 0 <= a < here.len() && here[a] == e;
        assert((prev + here)[prev.len() + a] == e);
    }
}

/// The backlinks are complete: every link that a note outside the trash holds, whose target
/// resolves to another note `t`, is among the backlinks of `t`, with the note it comes from.
pub proof fn lemma_backlinks_complete(notes: Seq<Note>, t: int, src: int, j: int)
    requires
        0 <= src < notes.len(),
        !notes[src].trashed,
        0 <= j < links_of(notes[src].content@).len(),
        src != t,
        resolve_spec(notes, links_of(notes[src].content@)[j].0).contains(t),
    ensures
        backlinks_spec(notes, t).contains((src, links_of(notes[src].content@)[j])),
{
    lemma_resolve_upto(notes, links_of(notes[src].content@)[j].0, notes.len() as int);
    lemma_backlinks_upto_complete(notes, t, notes.len() as int, src, j);
}

} // verus!
