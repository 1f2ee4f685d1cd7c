//! Syntax highlighting of the editor's Markdown: syntect colours the text line by line,
//! and a line that it leaves without a region shows in the editor's default colour.
use vstd::prelude::*;
use syntect::easy::HighlightLines;
use syntect::highlighting::ThemeSet;
use syntect::parsing::SyntaxSet;
use syntect::util::LinesWithEndings;
use crate::settings::ThemeMode;
use crate::text::{chars_of, lemma_line_end, line_end, line_end_exec, string_of_range};
use crate::theme::{highlight_theme, highlight_theme_name};

verus! {

/// A highlighted region as plain values: the number of its line (counted from 0), the
/// red, green, blue and alpha of its colour, and its text.
pub type RegionView = (int, u8, u8, u8, u8, Seq<char>);

/// A piece of highlighted text as plain values: red, green, blue, alpha, and the text.
pub type SpanView = (u8, u8, u8, u8, Seq<char>);

pub open spec fn regions_view(v: Seq<(usize, u8, u8, u8, u8, String)>) -> Seq<RegionView> {
    v.map_values(|x: (usize, u8, u8, u8, u8, String)| (x.0 as int, x.1, x.2, x.3, x.4, x.5@))
}

pub open spec fn spans_view(v: Seq<(u8, u8, u8, u8, String)>) -> Seq<SpanView> {
    v.map_values(|x: (u8, u8, u8, u8, String)| (x.0, x.1, x.2, x.3, x.4@))
}

/// The regions, in order, that syntect's Markdown highlighting gives `text` in the theme
/// named `theme`.
pub uninterp spec fn md_highlight(text: Seq<char>, theme: Seq<char>) -> Seq<RegionView>;

/// syntect's default syntaxes (with line feeds) and default themes; the Markdown syntax
/// (else plain text) and the theme named `theme` (else the first one) drive
/// `HighlightLines::highlight_line` over the lines of `LinesWithEndings::from(text)`; a
/// line whose highlighting fails gives no region.  Each region keeps its line's number,
/// its foreground colour and its text.  Claimed: the result is `md_highlight(text, theme)`,
/// a function of these two arguments; which colours syntect picks is not stated.
#[verifier::external_body]
fn highlight_regions(text: &str, theme: &str) -> (r: Vec<(usize, u8, u8, u8, u8, String)>)
    ensures
        regions_view(r@) == md_highlight(text@, theme@),
{
    let (ss, ts) = (SyntaxSet::load_defaults_newlines(), ThemeSet::load_defaults());
    let th = ts.themes.get(theme).or(ts.themes.values().next()).expect("syntect has default themes");
    let md = ss.find_syntax_by_extension("md").or(ss.find_syntax_by_name("Markdown"));
    let mut h = HighlightLines::new(md.unwrap_or(ss.find_syntax_plain_text()), th);
    let mut out = Vec::new();
    for (k, line) in LinesWithEndings::from(text).enumerate() {
        for (style, piece) in h.highlight_line(line, &ss).unwrap_or_default() {
            let c = style.foreground;
            out.push((k, c.r, c.g, c.b, c.a, piece.to_string()));
        }
    }
    out
}

/// How many regions from index `j` on, one after the other, belong to line `k`.
pub open spec fn run_len(rs: Seq<RegionView>, j: int, k: int) -> nat
    decreases rs.len() - j,
{
    if 0 <= j < rs.len() && rs[j].0 == k {
        1 + run_len(rs, j + 1, k)
    } else {
        0
    }
}

/// Where the line that starts at `i` of `s` ends, its line feed included.
pub open spec fn next_line(s: Seq<char>, i: int) -> int {
    if line_end(s, i) < s.len() {
        line_end(s, i) + 1
    } else {
        s.len() as int
    }
}

/// The highlighted pieces of the lines of `s` from the one starting at `i`, which is line
/// `k`, with the regions from `j` on: a line takes the run of regions that carry its
/// number, or, when there is none, shows whole in the colour `d`.
pub open spec fn highlight_from(
    s: Seq<char>,
    i: int,
    k: int,
    rs: Seq<RegionView>,
    j: int,
    d: (u8, u8, u8, u8),
) -> Seq<SpanView>
    decreases s.len() - i,
{
    if i < 0 || i >= s.len() {
        seq![]
    } else {
        proof {
            lemma_line_end(s, i);
        }
        let e = next_line(s, i);
        let n = run_len(rs, j, k);
        let here = if n == 0 {
            seq![(d.0, d.1, d.2, d.3, s.subrange(i, e))]
        } else {
            rs.subrange(j, j + n).map_values(|r: RegionView| (r.1, r.2, r.3, r.4, r.5))
        };
        here + highlight_from(s, e, k + 1, rs, j + n, d)
    }
}

/// The Markdown `text` highlighted in the syntect theme of `mode`: line after line, the
/// regions that syntect gives the line, or the whole line in the colour `default` when it
/// gives none.
pub fn highlight_markdown(text: &str, mode: ThemeMode, default: (u8, u8, u8, u8)) -> (r: Vec<
    (u8, u8, u8, u8, String),
>)
    ensures
        spans_view(r@) == highlight_from(
            text@,
            0,
            0,
            md_highlight(text@, highlight_theme_name(mode)),
            0,
            default,
        ),
{
    let theme = highlight_theme(mode);
    let rs = highlight_regions(text, theme);
    let ghost rv = regions_view(rs@);
    let s = chars_of(text);
    let mut out: Vec<(u8, u8, u8, u8, String)> = Vec::new();
    let mut i: usize = 0;
    let mut k: usize = 0;
    let mut j: usize = 0;
    while i < s.len()
        invariant
            s@ == text@,
            rv == regions_view(rs@),
            i <= s@.len(),
            k <= i,
            j <= rs@.len(),
            spans_view(out@) + highlight_from(s@, i as int, k as int, rv, j as int, default)
                == highlight_from(s@, 0, 0, rv, 0, default),
        decreases s@.len() - i,
    {
        let ghost before = spans_view(out@);
        let line_stop = line_end_exec(&s, i);
        proof {
            lemma_line_end(s@, i as int);
        }
        let e = if line_stop < s.len() {
            line_stop + 1
        } else {
            s.len()
        };
        let j0 = j;
        while j < rs.len() && rs[j].0 == k
            invariant
                rv == regions_view(rs@),
                j0 <= j <= rs@.len(),
                run_len(rv, j0 as int, k as int) == (j - j0) + run_len(rv, j as int, k as int),
                spans_view(out@) == before + rv.subrange(j0 as int, j as int).map_values(
                    |r: RegionView| (r.1, r.2, r.3, r.4, r.5),
                ),
            decreases rs@.len() - j,
        {
            let ghost old_out = out;
            let reg = &rs[j];
            let piece = reg.5.clone();
            assert(piece@ == rv[j as int].5);
            out.push((reg.1, reg.2, reg.3, reg.4, piece));
            assert(spans_view(out@) =~= spans_view(old_out@).push((reg.1, reg.2, reg.3, reg.4, piece@)));
            assert(rv.subrange(j0 as int, j + 1) =~= rv.subrange(j0 as int, j as int).push(rv[j as int]));
            assert(spans_view(out@) =~= before + rv.subrange(j0 as int, j + 1).map_values(
                |r: RegionView| (r.1, r.2, r.3, r.4, r.5),
            ));
            j = j + 1;
        }
        if j == j0 {
            out.push((default.0, default.1, default.2, default.3, string_of_range(&s, i, e)));
        }
        assert(spans_view(out@) + highlight_from(s@, e as int, k + 1, rv, j as int, default)
            =~= before + highlight_from(s@, i as int, k as int, rv, j0 as int, default));
        i = e;
        k = k + 1;
    }
    out
}

} // verus!
