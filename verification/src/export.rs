//! Export of a note as a standalone HTML document.
//!
//! The Markdown itself is rendered by pulldown-cmark; this module escapes the title,
//! gives every plain `<hN>` heading an `id` made of its text, and wraps the body in the
//! document with its stylesheet.
use vstd::prelude::*;
use crate::text::{chars_of, extend_range, extend_str, find_from, find_from_exec, lemma_find_from, string_of, trim, trim_bounds};

verus! {

/// pulldown-cmark option bits of the export: tables (`1 << 1`), footnotes (`1 << 2`),
/// strikethrough (`1 << 3`) and task lists (`1 << 4`).
pub const EXPORT_OPTIONS: u32 = 30;

/// The stylesheet embedded in exported documents.
pub const EXPORT_CSS: &'static str = "body {\n  margin: 0;\n  background: #ffffff;\n  color: #1f2328;\n  font-family: \"Yu Gothic\", \"Meiryo\", -apple-system, \"Segoe UI\", sans-serif;\n  line-height: 1.7;\n}\n.markdown-body {\n  max-width: 860px;\n  margin: 0 auto;\n  padding: 32px 24px;\n}\n.markdown-body h1, .markdown-body h2 {\n  border-bottom: 1px solid #d0d7de;\n  padding-bottom: 0.3em;\n}\n.markdown-body code {\n  background: #f6f8fa;\n  border-radius: 4px;\n  padding: 0.1em 0.3em;\n  font-family: Consolas, \"Courier New\", monospace;\n}\n.markdown-body pre {\n  background: #f6f8fa;\n  border-radius: 6px;\n  padding: 12px 16px;\n  overflow: auto;\n}\n.markdown-body pre code {\n  background: none;\n  padding: 0;\n}\n.markdown-body blockquote {\n  margin: 0;\n  padding: 0 1em;\n  color: #59636e;\n  border-left: 4px solid #d0d7de;\n}\n.markdown-body table {\n  border-collapse: collapse;\n}\n.markdown-body th, .markdown-body td {\n  border: 1px solid #d0d7de;\n  padding: 6px 13px;\n}\n.markdown-body img {\n  max-width: 100%;\n}";

/// The HTML that pulldown-cmark renders for `markdown` with the option bits `options`.
pub uninterp spec fn cmark_html(markdown: Seq<char>, options: u32) -> Seq<char>;

/// `pulldown_cmark::Parser::new_ext` over `markdown` with `Options::from_bits_truncate(options)`,
/// written out by `pulldown_cmark::html::push_html` into an empty string.  Claimed: the result
/// is `cmark_html(markdown, options)`, a function of these two arguments; what HTML
/// CommonMark prescribes is not stated.
#[verifier::external_body]
fn render_commonmark(markdown: &str, options: u32) -> (r: String)
    ensures
        r@ == cmark_html(markdown@, options),
{
    let parser = pulldown_cmark::Parser::new_ext(
        markdown,
        pulldown_cmark::Options::from_bits_truncate(options),
    );
    let mut body = String::new();
    pulldown_cmark::html::push_html(&mut body, parser);
    body
}

// ---------------------------------------------------------------------------
// Escaping and tag stripping
// ---------------------------------------------------------------------------

/// The HTML escape of one character.
pub open spec fn escape_char(c: char) -> Seq<char> {
    if c == '&' {
        seq!['&', 'a', 'm', 'p', ';']
    } else if c == '<' {
        seq!['&', 'l', 't', ';']
    } else if c == '>' {
        seq!['&', 'g', 't', ';']
    } else if c == '"' {
        seq!['&', 'q', 'u', 'o', 't', ';']
    } else {
        seq![c]
    }
}

/// `s` with `&`, `<`, `>` and `"` replaced by their entities.
pub open spec fn escape(s: Seq<char>) -> Seq<char>
    decreases s.len(),
{
    if s.len() == 0 {
        seq![]
    } else {
        escape(s.drop_last()) + escape_char(s.last())
    }
}

/// The text of `s` outside tags, and whether `s` ends inside a tag.
pub open spec fn strip_state(s: Seq<char>) -> (Seq<char>, bool)
    decreases s.len(),
{
    if s.len() == 0 {
        (seq![], false)
    } else {
        let (out, in_tag) = strip_state(s.drop_last());
        let c = s.last();
        if c == '<' {
            (out, true)
        } else if c == '>' {
            (out, false)
        } else if !in_tag {
            (out.push(c), in_tag)
        } else {
            (out, in_tag)
        }
    }
}

/// The text of `s` with every `<…>` tag removed.
pub open spec fn strip_tags(s: Seq<char>) -> Seq<char> {
    strip_state(s).0
}

/// Appends the escape of `v[from..to]` to `out`.
fn push_escaped(out: &mut Vec<char>, v: &Vec<char>, from: usize, to: usize)
    requires
        from <= to <= v@.len(),
    ensures
        final(out)@ == old(out)@ + escape(v@.subrange(from as int, to as int)),
{
    let mut i = from;
    while i < to
        invariant
            from <= i <= to <= v@.len(),
            out@ == old(out)@ + escape(v@.subrange(from as int, i as int)),
        decreases to - i,
    {
        let ghost before = out@;
        let c = v[i];
        if c == '&' {
            out.push('&');
            out.push('a');
            out.push('m');
            out.push('p');
            out.push(';');
        } else if c == '<' {
            out.push('&');
            out.push('l');
            out.push('t');
            out.push(';');
        } else if c == '>' {
            out.push('&');
            out.push('g');
            out.push('t');
            out.push(';');
        } else if c == '"' {
            out.push('&');
            out.push('q');
            out.push('u');
            out.push('o');
            out.push('t');
            out.push(';');
        } else {
            out.push(c);
        }
        assert(out@ =~= before + escape_char(c));
        assert(v@.subrange(from as int, i + 1).drop_last() =~= v@.subrange(from as int, i as int));
        i = i + 1;
    }
}

/// Escapes `&`, `<`, `>` and `"` for use in HTML text and attribute values.
pub fn html_escape(s: &str) -> (r: String)
    ensures
        r@ == escape(s@),
{
    let v = chars_of(s);
    let mut out: Vec<char> = Vec::new();
    push_escaped(&mut out, &v, 0, v.len());
    assert(v@.subrange(0, v@.len() as int) =~= s@);
    string_of(&out)
}

/// The characters of `v[from..to]` outside `<…>` tags.
fn strip_range(v: &Vec<char>, from: usize, to: usize) -> (r: Vec<char>)
    requires
        from <= to <= v@.len(),
    ensures
        r@ == strip_tags(v@.subrange(from as int, to as int)),
{
    let mut out: Vec<char> = Vec::new();
    let mut in_tag = false;
    let mut i = from;
    while i < to
        invariant
            from <= i <= to <= v@.len(),
            (out@, in_tag) == strip_state(v@.subrange(from as int, i as int)),
        decreases to - i,
    {
        assert(v@.subrange(from as int, i + 1).drop_last() =~= v@.subrange(from as int, i as int));
        let c = v[i];
        if c == '<' {
            in_tag = true;
        } else if c == '>' {
            in_tag = false;
        } else if !in_tag {
            out.push(c);
        }
        i = i + 1;
    }
    out
}

/// The text of `s` outside `<…>` tags.
pub fn strip_html_tags(s: &str) -> (r: String)
    ensures
        r@ == strip_tags(s@),
{
    let v = chars_of(s);
    let out = strip_range(&v, 0, v.len());
    assert(v@.subrange(0, v@.len() as int) =~= s@);
    string_of(&out)
}

// ---------------------------------------------------------------------------
// Heading anchors
// ---------------------------------------------------------------------------

/// The closing tag `</hN>` of the heading level digit `d`.
pub open spec fn close_tag(d: char) -> Seq<char> {
    seq!['<', '/', 'h', d, '>']
}

/// The opening tag `<hN id="…">` of the heading level digit `d` with the given id.
pub open spec fn open_tag_with_id(d: char, id: Seq<char>) -> Seq<char> {
    seq!['<', 'h', d, ' ', 'i', 'd', '=', '"'] + id + seq!['"', '>']
}

/// Where the heading whose plain opening tag `<hN>` stands at index `i` of `s` closes:
/// the index of the first `</hN>` after it.
pub open spec fn heading_close_at(s: Seq<char>, i: int) -> Option<int> {
    if 0 <= i && i + 3 < s.len() && s[i] == '<' && s[i + 1] == 'h' && '1' <= s[i + 2] <= '6'
        && s[i + 3] == '>' {
        find_from(s, close_tag(s[i + 2]), i + 4)
    } else {
        None
    }
}

/// `s[i..]` with each plain heading `<hN>inner</hN>` given the id made of its text:
/// the inner HTML without tags, trimmed and escaped.
pub open spec fn ids_from(s: Seq<char>, i: int) -> Seq<char>
    decreases s.len() - i,
{
    if i < 0 || i >= s.len() {
        seq![]
    } else {
        match heading_close_at(s, i) {
            Some(j) => {
                proof {
                    lemma_find_from(s, close_tag(s[i + 2]), i + 4);
                }
                let d = s[i + 2];
                let inner = s.subrange(i + 4, j);
                open_tag_with_id(d, escape(trim(strip_tags(inner)))) + inner + close_tag(d)
                    + ids_from(s, j + 5)
            },
            None => seq![s[i]] + ids_from(s, i + 1),
        }
    }
}

/// What `add_heading_ids` returns.
pub open spec fn with_heading_ids(html: Seq<char>) -> Seq<char> {
    ids_from(html, 0)
}

fn close_tag_exec(d: char) -> (v: Vec<char>)
    ensures
        v@ == close_tag(d),
{
    let mut v: Vec<char> = Vec::new();
    v.push('<');
    v.push('/');
    v.push('h');
    v.push(d);
    v.push('>');
    assert(v@ =~= close_tag(d));
    v
}

/// Appends the rewritten heading `<hN id="…">inner</hN>` for `v[from..to]` as inner HTML.
fn push_heading(out: &mut Vec<char>, v: &Vec<char>, d: char, from: usize, to: usize)
    requires
        from <= to <= v@.len(),
    ensures
        final(out)@ == old(out)@ + open_tag_with_id(
            d,
            escape(trim(strip_tags(v@.subrange(from as int, to as int)))),
        ) + v@.subrange(from as int, to as int) + close_tag(d),
{
    let plain = strip_range(v, from, to);
    let (a, b) = trim_bounds(&plain, 0, plain.len());
    assert(plain@.subrange(0, plain@.len() as int) =~= plain@);
    let ghost o = out@;
    out.push('<');
    out.push('h');
    out.push(d);
    out.push(' ');
    out.push('i');
    out.push('d');
    out.push('=');
    out.push('"');
    push_escaped(out, &plain, a, b);
    out.push('"');
    out.push('>');
    extend_range(out, v, from, to);
    out.push('<');
    out.push('/');
    out.push('h');
    out.push(d);
    out.push('>');
    assert(out@ =~= o + open_tag_with_id(d, escape(trim(strip_tags(v@.subrange(from as int, to as int)))))
        + v@.subrange(from as int, to as int) + close_tag(d));
}

/// Gives every plain `<h1>` … `<h6>` opening tag of `html` an `id` attribute: the text of
/// the heading with inner tags removed, trimmed and escaped.  Tags that already carry
/// attributes, and headings without a closing tag, are left alone.
pub fn add_heading_ids(html: &str) -> (r: String)
    ensures
        r@ == with_heading_ids(html@),
{
    let v = chars_of(html);
    let n = v.len();
    let mut out: Vec<char> = Vec::new();
    let mut i: usize = 0;
    while i < n
        invariant
            i <= n,
            n == v@.len(),
            with_heading_ids(v@) == out@ + ids_from(v@, i as int),
        decreases n - i,
    {
        let mut close: Option<usize> = None;
        if n - i > 3 && v[i] == '<' && v[i + 1] == 'h' && '1' <= v[i + 2] && v[i + 2] <= '6' && v[i
            + 3] == '>' {
            let tag = close_tag_exec(v[i + 2]);
            close = find_from_exec(&v, &tag, i + 4);
        }
        assert(close == match heading_close_at(v@, i as int) {
            Some(j) => Some(j as usize),
            None => None::<usize>,
        });
        match close {
            Some(j) => {
                proof {
                    lemma_find_from(v@, close_tag(v@[i + 2]), i + 4);
                }
                let ghost before = out@;
                push_heading(&mut out, &v, v[i + 2], i + 4, j);
                assert(before + ids_from(v@, i as int) =~= out@ + ids_from(v@, j + 5));
                i = j + 5;
            },
            None => {
                let ghost before = out@;
                out.push(v[i]);
                assert(before + ids_from(v@, i as int) =~= out@ + ids_from(v@, i + 1));
                i = i + 1;
            },
        }
    }
    assert(out@ + ids_from(v@, i as int) =~= out@);
    string_of(&out)
}

// ---------------------------------------------------------------------------
// Laws
// ---------------------------------------------------------------------------

/// The escape of any text holds no `<`, `>` or `"`, so it can stand inside an attribute
/// value or element text; each `&` it holds starts an entity.
pub proof fn lemma_escape_is_inert(s: Seq<char>)
    ensures
        forall|k: int|
            0 <= k < escape(s).len() ==> #[trigger] escape(s)[k] != '<' && escape(s)[k] != '>'
                && escape(s)[k] != '"',
    decreases s.len(),
{
    if s.len() > 0 {
        lemma_escape_is_inert(s.drop_last());
        let a = escape(s.drop_last());
        let b = escape_char(s.last());
        assert forall|k: int| 0 <= k < (a + b).len() implies #[trigger] (a + b)[k] != '<' && (a
            + b)[k] != '>' && (a + b)[k] != '"' by {
            if k >= a.len() {
                assert((a + b)[k] == b[k - a.len()]);
            }
        }
    }
}

/// Text holding none of `&`, `<`, `>`, `"` is its own escape.
pub proof fn lemma_escape_plain(s: Seq<char>)
    requires
        forall|k: int|
            0 <= k < s.len() ==> #[trigger] s[k] != '&' && s[k] != '<' && s[k] != '>' && s[k]
                != '"',
    ensures
        escape(s) == s,
    decreases s.len(),
{
    if s.len() > 0 {
        lemma_escape_plain(s.drop_last());
        assert(s.drop_last().push(s.last()) =~= s);
    }
}

proof fn lemma_ids_from_plain(s: Seq<char>, i: int)
    requires
        0 <= i <= s.len(),
        forall|k: int| 0 <= k < s.len() ==> #[trigger] s[k] != '<',
    ensures
        ids_from(s, i) == s.skip(i),
    decreases s.len() - i,
{
    if i < s.len() {
        assert(s[i] != '<');
        lemma_ids_from_plain(s, i + 1);
        assert(seq![s[i]] + s.skip(i + 1) =~= s.skip(i));
    } else {
        assert(s.skip(i) =~= Seq::<char>::empty());
    }
}

/// HTML without any tag is left unchanged by the heading anchors.
pub proof fn lemma_heading_ids_plain(s: Seq<char>)
    requires
        forall|k: int| 0 <= k < s.len() ==> #[trigger] s[k] != '<',
    ensures
        with_heading_ids(s) == s,
{
    lemma_ids_from_plain(s, 0);
    assert(s.skip(0) =~= s);
}

// ---------------------------------------------------------------------------
// The document
// ---------------------------------------------------------------------------

/// The exported document: its head with the escaped title and the stylesheet, and the
/// body inside an `article`.
pub open spec fn document(title: Seq<char>, css: Seq<char>, body: Seq<char>) -> Seq<char> {
    "<!DOCTYPE html>\n<html lang=\"ja\">\n<head>\n<meta charset=\"UTF-8\">\n<meta name=\"viewport\" content=\"width=device-width, initial-scale=1.0\">\n<title>"@
        + escape(title) + "</title>\n<style>\n"@ + css
        + "\n</style>\n</head>\n<body>\n<article class=\"markdown-body\">\n"@ + body
        + "\n</article>\n</body>\n</html>\n"@
}

/// What `markdown_to_html` returns.
pub open spec fn exported(markdown: Seq<char>, title: Seq<char>) -> Seq<char> {
    document(title, EXPORT_CSS@, with_heading_ids(cmark_html(markdown, EXPORT_OPTIONS)))
}

/// Renders `markdown` as a standalone HTML document titled `title`, with tables,
/// strikethrough, task lists and footnotes enabled and an anchor on every heading.
pub fn markdown_to_html(markdown: &str, title: &str) -> (r: String)
    ensures
        r@ == exported(markdown@, title@),
{
    let body = render_commonmark(markdown, EXPORT_OPTIONS);
    let body = add_heading_ids(body.as_str());
    let t = chars_of(title);
    let mut out: Vec<char> = Vec::new();
    extend_str(
        &mut out,
        "<!DOCTYPE html>\n<html lang=\"ja\">\n<head>\n<meta charset=\"UTF-8\">\n<meta name=\"viewport\" content=\"width=device-width, initial-scale=1.0\">\n<title>",
    );
    push_escaped(&mut out, &t, 0, t.len());
    assert(t@.subrange(0, t@.len() as int) =~= title@);
    extend_str(&mut out, "</title>\n<style>\n");
    extend_str(&mut out, EXPORT_CSS);
    extend_str(&mut out, "\n</style>\n</head>\n<body>\n<article class=\"markdown-body\">\n");
    extend_str(&mut out, body.as_str());
    extend_str(&mut out, "\n</article>\n</body>\n</html>\n");
    string_of(&out)
}

} // verus!
