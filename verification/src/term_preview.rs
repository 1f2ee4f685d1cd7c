//! The terminal preview: Markdown parse events laid out as styled lines of text.
use vstd::prelude::*;
use pulldown_cmark::Event::{Code, End, HardBreak, Rule, SoftBreak, Start, Text};
use pulldown_cmark::TagEnd::{CodeBlock, Emphasis, Heading, Item, List, Paragraph, Strong};
use pulldown_cmark::{Options, Parser, TagEnd};
use crate::text::{chars_of, split_lines, split_lines_exec, string_of, string_of_range};

verus! {

/// The kind of a Markdown element, as far as the terminal preview tells them apart.
#[derive(Clone, Copy, Debug)]
pub enum MdTag {
    /// A heading of the given level (1 to 6).
    Heading(u8),
    Paragraph,
    Strong,
    Emphasis,
    List,
    Item,
    CodeBlock,
    /// Any other element; ignored.
    Other,
}

/// A Markdown parse event, as far as the terminal preview tells them apart.
#[derive(Clone, Debug)]
pub enum MdEvent {
    /// Start of an element.
    Start(MdTag),
    /// End of an element.
    End(MdTag),
    /// Inline code.
    Code(String),
    Text(String),
    /// A soft or hard line break.
    Break,
    /// A horizontal rule.
    Rule,
    /// Anything else; ignored.
    Other,
}

/// A terminal colour.
#[derive(Clone, Copy, Debug, PartialEq, Eq, Structural)]
pub enum TermColor {
    Yellow,
    Cyan,
    Green,
    White,
    DarkGray,
}

/// How a piece of text is drawn.
#[derive(Clone, Copy, Debug, PartialEq, Eq, Structural)]
pub struct TermStyle {
    pub fg: Option<TermColor>,
    pub bg: Option<TermColor>,
    pub bold: bool,
    pub italic: bool,
}

/// A piece of text with its style.
#[derive(Clone, Debug, PartialEq)]
pub struct TermSpan {
    pub text: String,
    pub style: TermStyle,
}

/// A line of the preview: its pieces, and a style for the whole line.
#[derive(Clone, Debug, PartialEq)]
pub struct TermLine {
    pub spans: Vec<TermSpan>,
    pub style: TermStyle,
}

pub type SpanView = (Seq<char>, TermStyle);

pub type LineView = (Seq<SpanView>, TermStyle);

pub open spec fn plain() -> TermStyle {
    TermStyle { fg: None, bg: None, bold: false, italic: false }
}

pub open spec fn fg(c: TermColor) -> TermStyle {
    TermStyle { fg: Some(c), bg: None, bold: false, italic: false }
}

/// The preview's state between two events.
#[verifier::ext_equal]
pub struct PreviewState {
    pub lines: Seq<LineView>,
    pub spans: Seq<SpanView>,
    pub bold: bool,
    pub italic: bool,
    pub code_block: bool,
    pub depth: nat,
}

/// A line made of `spans`.
pub open spec fn line_of(spans: Seq<SpanView>) -> LineView {
    (spans, plain())
}

/// A line of the text `t` (no line break in it) drawn in `style`: an empty text makes
/// an empty line.
pub open spec fn text_line(t: Seq<char>, style: TermStyle) -> LineView {
    if t.len() == 0 {
        (seq![], style)
    } else {
        (seq![(t, plain())], style)
    }
}

/// The separator drawn around code blocks.
pub open spec fn code_fence() -> Seq<char> {
    "─────────────────────"@
}

/// The horizontal rule.
pub open spec fn rule_line() -> Seq<char> {
    "━━━━━━━━━━━━━━━━━━━━━━━━━━━━━━━━━━━━━━━━"@
}

/// `s` with one trailing carriage return removed.
pub open spec fn strip_cr(s: Seq<char>) -> Seq<char> {
    if s.len() > 0 && s.last() == '\r' {
        s.drop_last()
    } else {
        s
    }
}

/// The lines of `s` as `str::lines` yields them: split at line feeds, a final line feed
/// ending the last line, each line without a trailing carriage return.
pub open spec fn text_lines(s: Seq<char>) -> Seq<Seq<char>> {
    if s.len() == 0 {
        seq![]
    } else {
        let pieces = split_lines(s);
        let kept = if s.last() == '\n' {
            pieces.drop_last()
        } else {
            pieces
        };
        kept.map_values(|l: Seq<char>| strip_cr(l))
    }
}

/// The heading marker and colour of a heading level.
pub open spec fn heading_marker(level: u8) -> (Seq<char>, TermColor) {
    if level == 1 {
        ("# "@, TermColor::Yellow)
    } else if level == 2 {
        ("## "@, TermColor::Cyan)
    } else if level == 3 {
        ("### "@, TermColor::Green)
    } else {
        ("#### "@, TermColor::White)
    }
}

/// The state after the current spans become a line, if there are any.
pub open spec fn flush(s: PreviewState) -> PreviewState {
    if s.spans.len() > 0 {
        PreviewState { lines: s.lines.push(line_of(s.spans)), spans: seq![], ..s }
    } else {
        s
    }
}

/// The style of text outside code blocks.
pub open spec fn text_style(bold: bool, italic: bool) -> TermStyle {
    TermStyle { fg: None, bg: None, bold, italic }
}

/// The state after one event.
pub open spec fn step(s: PreviewState, e: MdEvent) -> PreviewState {
    match e {
        MdEvent::Start(MdTag::Heading(level)) => {
            let f = flush(s);
            let (m, c) = heading_marker(level);
            PreviewState {
                spans: f.spans.push((m, TermStyle { fg: Some(c), bg: None, bold: true, italic: false })),
                bold: true,
                ..f
            }
        },
        MdEvent::End(MdTag::Heading(_)) => PreviewState {
            lines: s.lines.push(line_of(s.spans)).push(text_line(seq![], plain())),
            spans: seq![],
            bold: false,
            ..s
        },
        MdEvent::Start(MdTag::Paragraph) => s,
        MdEvent::End(MdTag::Paragraph) => {
            let f = flush(s);
            PreviewState { lines: f.lines.push(text_line(seq![], plain())), ..f }
        },
        MdEvent::Start(MdTag::Strong) => PreviewState { bold: true, ..s },
        MdEvent::End(MdTag::Strong) => PreviewState { bold: false, ..s },
        MdEvent::Start(MdTag::Emphasis) => PreviewState { italic: true, ..s },
        MdEvent::End(MdTag::Emphasis) => PreviewState { italic: false, ..s },
        MdEvent::Start(MdTag::List) => PreviewState { depth: s.depth + 1, ..s },
        MdEvent::End(MdTag::List) => {
            let d = if s.depth == 0 { 0 } else { (s.depth - 1) as nat };
            if d == 0 {
                PreviewState { depth: d, lines: s.lines.push(text_line(seq![], plain())), ..s }
            } else {
                PreviewState { depth: d, ..s }
            }
        },
        MdEvent::Start(MdTag::Item) => {
            let f = flush(s);
            let indent = Seq::new(
                2 * (if f.depth == 0 { 0 } else { (f.depth - 1) as nat }),
                |i: int| ' ',
            );
            PreviewState { spans: f.spans.push((indent + "• "@, fg(TermColor::Yellow))), ..f }
        },
        MdEvent::End(MdTag::Item) => flush(s),
        MdEvent::Start(MdTag::CodeBlock) => PreviewState {
            code_block: true,
            lines: s.lines.push(text_line(code_fence(), fg(TermColor::DarkGray))),
            ..s
        },
        MdEvent::End(MdTag::CodeBlock) => PreviewState {
            code_block: false,
            lines: s.lines.push(text_line(code_fence(), fg(TermColor::DarkGray))).push(
                text_line(seq![], plain()),
            ),
            ..s
        },
        MdEvent::Code(t) => PreviewState {
            spans: s.spans.push(
                (t@, TermStyle { fg: Some(TermColor::Green), bg: Some(TermColor::DarkGray), bold: true, italic: false }),
            ),
            ..s
        },
        MdEvent::Text(t) => if s.code_block {
            PreviewState {
                lines: s.lines + text_lines(t@).map_values(
                    |l: Seq<char>| text_line(seq![' ', ' '] + l, fg(TermColor::Green)),
                ),
                ..s
            }
        } else {
            PreviewState { spans: s.spans.push((t@, text_style(s.bold, s.italic))), ..s }
        },
        MdEvent::Break => PreviewState { lines: s.lines.push(line_of(s.spans)), spans: seq![], ..s },
        MdEvent::Rule => PreviewState {
            lines: s.lines.push(text_line(rule_line(), fg(TermColor::DarkGray))),
            ..s
        },
        MdEvent::Start(MdTag::Other) => s,
        MdEvent::End(MdTag::Other) => s,
        MdEvent::Other => s,
    }
}

/// The state after the events `es`, from the start.
pub open spec fn run(es: Seq<MdEvent>) -> PreviewState
    decreases es.len(),
{
    if es.len() == 0 {
        PreviewState { lines: seq![], spans: seq![], bold: false, italic: false, code_block: false, depth: 0 }
    } else {
        step(run(es.drop_last()), es.last())
    }
}

/// The preview of the events `es`: their lines, and a last line of the spans left over.
pub open spec fn preview_spec(es: Seq<MdEvent>) -> Seq<LineView> {
    flush(run(es)).lines
}

pub open spec fn span_view(s: TermSpan) -> SpanView {
    (s.text@, s.style)
}

pub open spec fn spans_view(v: Seq<TermSpan>) -> Seq<SpanView> {
    v.map_values(|s: TermSpan| span_view(s))
}

pub open spec fn line_view(l: TermLine) -> LineView {
    (spans_view(l.spans@), l.style)
}

pub open spec fn lines_view(v: Seq<TermLine>) -> Seq<LineView> {
    v.map_values(|l: TermLine| line_view(l))
}

fn plain_style() -> (s: TermStyle)
    ensures
        s == plain(),
{
    TermStyle { fg: None, bg: None, bold: false, italic: false }
}

fn fg_style(c: TermColor) -> (s: TermStyle)
    ensures
        s == fg(c),
{
    TermStyle { fg: Some(c), bg: None, bold: false, italic: false }
}

/// A line of the text `t` in `style` (see `text_line`).
fn make_text_line(t: String, style: TermStyle) -> (l: TermLine)
    requires
        !crate::text::has_char(t@, '\n'),
    ensures
        line_view(l) == text_line(t@, style),
{
    let mut spans: Vec<TermSpan> = Vec::new();
    if !t.as_str().is_empty() {
        spans.push(TermSpan { text: t, style: plain_style() });
    }
    let l = TermLine { spans, style };
    assert(spans_view(l.spans@) =~= text_line(t@, style).0);
    l
}

/// Moves the current spans into a line of their own.
fn take_line(lines: &mut Vec<TermLine>, spans: &mut Vec<TermSpan>)
    ensures
        lines_view(final(lines)@) == lines_view(old(lines)@).push(line_of(spans_view(old(spans)@))),
        final(spans)@.len() == 0,
{
    let mut taken: Vec<TermSpan> = Vec::new();
    std::mem::swap(&mut taken, spans);
    lines.push(TermLine { spans: taken, style: plain_style() });
    assert(lines_view(lines@) =~= lines_view(old(lines)@).push(line_of(spans_view(old(spans)@))));
}

/// The lines of a code block's text, indented and green.
fn push_code_lines(lines: &mut Vec<TermLine>, t: &String)
    ensures
        lines_view(final(lines)@) == lines_view(old(lines)@) + text_lines(t@).map_values(
            |l: Seq<char>| text_line(seq![' ', ' '] + l, fg(TermColor::Green)),
        ),
{
    let ghost want = text_lines(t@).map_values(
        |l: Seq<char>| text_line(seq![' ', ' '] + l, fg(TermColor::Green)),
    );
    let v = chars_of(t.as_str());
    if v.len() == 0 {
        assert(want =~= Seq::<LineView>::empty());
        assert(lines_view(lines@) =~= lines_view(old(lines)@) + want);
        return;
    }
    let pieces = split_lines_exec(&v, 0, v.len());
    assert(v@.subrange(0, v@.len() as int) =~= t@);
    proof {
        crate::text::lemma_split_join(t@);
    }
    let count = if v[v.len() - 1] == '\n' {
        pieces.len() - 1
    } else {
        pieces.len()
    };
    let ghost kept = if t@.last() == '\n' {
        split_lines(t@).drop_last()
    } else {
        split_lines(t@)
    };
    assert(kept.len() == count);
    let mut k: usize = 0;
    while k < count
        invariant
            k <= count <= pieces@.len(),
            pieces.deep_view() == split_lines(t@),
            kept.len() == count,
            forall|i: int| 0 <= i < count ==> #[trigger] kept[i] == split_lines(t@)[i],
            want == kept.map_values(|l: Seq<char>| text_line(seq![' ', ' '] + strip_cr(l), fg(TermColor::Green))),
            forall|i: int| 0 <= i < split_lines(t@).len() ==> !crate::text::has_char(#[trigger] split_lines(t@)[i], '\n'),
            lines_view(lines@) == lines_view(old(lines)@) + want.take(k as int),
        decreases count - k,
    {
        let piece = &pieces[k];
        assert(piece@ =~= piece.deep_view());
        assert(pieces.deep_view()[k as int] == piece@);
        let mut end = piece.len();
        if end > 0 && piece[end - 1] == '\r' {
            end = end - 1;
        }
        let mut c: Vec<char> = Vec::new();
        c.push(' ');
        c.push(' ');
        crate::text::extend_range(&mut c, piece, 0, end);
        assert(strip_cr(piece@) =~= piece@.subrange(0, end as int));
        assert(c@ =~= seq![' ', ' '] + strip_cr(kept[k as int]));
        assert(!crate::text::has_char(c@, '\n')) by {
            if crate::text::has_char(c@, '\n') {
                let w = choose|w: int| 0 <= w < c@.len() && c@[w] == '\n';
                assert(piece@[w - 2] == '\n');
            }
        }
        let ghost before = lines_view(lines@);
        lines.push(make_text_line(string_of(&c), fg_style(TermColor::Green)));
        assert(want.take(k + 1) =~= want.take(k as int).push(want[k as int]));
        assert(lines_view(lines@) =~= before.push(want[k as int]));
        k = k + 1;
    }
    assert(want.take(count as int) =~= want);
}

/// The heading marker and colour of a heading level (see `heading_marker`).
fn marker_for(level: u8) -> (r: (&'static str, TermColor))
    ensures
        (r.0@, r.1) == heading_marker(level),
{
    if level == 1 {
        ("# ", TermColor::Yellow)
    } else if level == 2 {
        ("## ", TermColor::Cyan)
    } else if level == 3 {
        ("### ", TermColor::Green)
    } else {
        ("#### ", TermColor::White)
    }
}

/// An empty line.
fn blank_line() -> (l: TermLine)
    ensures
        line_view(l) == text_line(seq![], plain()),
{
    let l = TermLine { spans: Vec::new(), style: plain_style() };
    assert(spans_view(l.spans@) =~= Seq::<SpanView>::empty());
    l
}

/// A code fence or rule line drawn in dark grey.
fn grey_line(rule: bool) -> (l: TermLine)
    ensures
        line_view(l) == text_line(if rule { rule_line() } else { code_fence() }, fg(TermColor::DarkGray)),
{
    proof {
        reveal_strlit("─────────────────────");
        reveal_strlit("━━━━━━━━━━━━━━━━━━━━━━━━━━━━━━━━━━━━━━━━");
    }
    let t = if rule {
        "━━━━━━━━━━━━━━━━━━━━━━━━━━━━━━━━━━━━━━━━"
    } else {
        "─────────────────────"
    };
    let text = t.to_owned();
    assert(!crate::text::has_char(text@, '\n'));
    make_text_line(text, fg_style(TermColor::DarkGray))
}

/// The exec state seen as a `PreviewState`.
pub open spec fn state_view(
    lines: Seq<TermLine>,
    spans: Seq<TermSpan>,
    bold: bool,
    italic: bool,
    code_block: bool,
    depth: nat,
) -> PreviewState {
    PreviewState { lines: lines_view(lines), spans: spans_view(spans), bold, italic, code_block, depth }
}

/// Lays out Markdown parse events as styled terminal lines: headings with their marker
/// in colour, list items with a bullet indented by depth, code blocks between fences,
/// inline code and emphasis styled, and a blank line after each block.
pub fn render_events(events: &Vec<MdEvent>) -> (lines: Vec<TermLine>)
    ensures
        lines_view(lines@) == preview_spec(events@),
{
    let mut lines: Vec<TermLine> = Vec::new();
    let mut spans: Vec<TermSpan> = Vec::new();
    let mut bold = false;
    let mut italic = false;
    let mut code_block = false;
    let mut depth: usize = 0;
    let mut k: usize = 0;
    assert(events@.take(0) =~= Seq::<MdEvent>::empty());
    assert(lines_view(lines@) =~= Seq::<LineView>::empty());
    assert(spans_view(spans@) =~= Seq::<SpanView>::empty());
    while k < events.len()
        invariant
            k <= events@.len(),
            depth <= k,
            state_view(lines@, spans@, bold, italic, code_block, depth as nat) == run(events@.take(k as int)),
        decreases events@.len() - k,
    {
        let ghost before = run(events@.take(k as int));
        assert(events@.take(k + 1).drop_last() =~= events@.take(k as int));
        assert(events@.take(k + 1).last() == events@[k as int]);
        match &events[k] {
            MdEvent::Start(MdTag::Heading(level)) => {
                if spans.len() > 0 {
                    take_line(&mut lines, &mut spans);
                }
                assert(spans_view(spans@) =~= flush(before).spans);
                let (m, c) = marker_for(*level);
                spans.push(TermSpan { text: m.to_owned(), style: TermStyle { fg: Some(c), bg: None, bold: true, italic: false } });
                bold = true;
            },
            MdEvent::End(MdTag::Heading(_)) => {
                take_line(&mut lines, &mut spans);
                lines.push(blank_line());
                bold = false;
            },
            MdEvent::Start(MdTag::Paragraph) => {},
            MdEvent::End(MdTag::Paragraph) => {
                if spans.len() > 0 {
                    take_line(&mut lines, &mut spans);
                }
                lines.push(blank_line());
            },
            MdEvent::Start(MdTag::Strong) => {
                bold = true;
            },
            MdEvent::End(MdTag::Strong) => {
                bold = false;
            },
            MdEvent::Start(MdTag::Emphasis) => {
                italic = true;
            },
            MdEvent::End(MdTag::Emphasis) => {
                italic = false;
            },
            MdEvent::Start(MdTag::List) => {
                depth = depth + 1;
            },
            MdEvent::End(MdTag::List) => {
                depth = if depth == 0 {
                    0
                } else {
                    depth - 1
                };
                if depth == 0 {
                    lines.push(blank_line());
                }
            },
            MdEvent::Start(MdTag::Item) => {
                if spans.len() > 0 {
                    take_line(&mut lines, &mut spans);
                }
                assert(spans_view(spans@) =~= flush(before).spans);
                let d = if depth == 0 {
                    0
                } else {
                    depth - 1
                };
                let mut c: Vec<char> = Vec::new();
                let mut i: usize = 0;
                while i < d
                    invariant
                        i <= d,
                        c@ =~= Seq::new(2 * (i as nat), |j: int| ' '),
                    decreases d - i,
                {
                    c.push(' ');
                    c.push(' ');
                    i = i + 1;
                }
                crate::text::extend_str(&mut c, "• ");
                spans.push(TermSpan { text: string_of(&c), style: fg_style(TermColor::Yellow) });
            },
            MdEvent::End(MdTag::Item) => {
                if spans.len() > 0 {
                    take_line(&mut lines, &mut spans);
                }
            },
            MdEvent::Start(MdTag::CodeBlock) => {
                code_block = true;
                lines.push(grey_line(false));
            },
            MdEvent::End(MdTag::CodeBlock) => {
                code_block = false;
                lines.push(grey_line(false));
                lines.push(blank_line());
            },
            MdEvent::Code(t) => {
                spans.push(TermSpan { text: t.clone(), style: TermStyle { fg: Some(TermColor::Green), bg: Some(TermColor::DarkGray), bold: true, italic: false } });
            },
            MdEvent::Text(t) => {
                if code_block {
                    push_code_lines(&mut lines, t);
                } else {
                    spans.push(TermSpan { text: t.clone(), style: TermStyle { fg: None, bg: None, bold, italic } });
                }
            },
            MdEvent::Break => {
                take_line(&mut lines, &mut spans);
            },
            MdEvent::Rule => {
                lines.push(grey_line(true));
            },
            MdEvent::Start(MdTag::Other) => {},
            MdEvent::End(MdTag::Other) => {},
            MdEvent::Other => {},
        }
        assert(state_view(lines@, spans@, bold, italic, code_block, depth as nat) =~= step(before, events@[k as int]));
        k = k + 1;
    }
    assert(events@.take(k as int) =~= events@);
    if spans.len() > 0 {
        take_line(&mut lines, &mut spans);
    }
    lines
}

/// pulldown-cmark option bits of the preview: tables (`1 << 1`) and strikethrough (`1 << 3`).
pub const PREVIEW_OPTIONS: u32 = 10;

/// The events, as the preview tells them apart, that pulldown-cmark yields for `input`
/// with the option bits `options`.
pub uninterp spec fn md_events(input: Seq<char>, options: u32) -> Seq<MdEvent>;

/// The events of `pulldown_cmark::Parser::new_ext` over `input` with
/// `Options::from_bits_truncate(options)`, each turned into the `MdEvent` of its kind (a
/// start tag by the kind of its end, `Tag::to_end`); the events and elements that the preview
/// does not draw become `Other`.
/// Claimed: the result is `md_events(input, options)`, a function of these two
/// arguments; which events CommonMark prescribes is not stated.
#[verifier::external_body]
fn parse_events(input: &str, options: u32) -> (r: Vec<MdEvent>)
    ensures
        r@ == md_events(input@, options),
{
    let tag = |t: TagEnd| match t {
        Heading(level) => MdTag::Heading(level as u8), Paragraph => MdTag::Paragraph,
        Strong => MdTag::Strong, Emphasis => MdTag::Emphasis, List(_) => MdTag::List,
        Item => MdTag::Item, CodeBlock => MdTag::CodeBlock, _ => MdTag::Other,
    };
    Parser::new_ext(input, Options::from_bits_truncate(options)).map(|e| match e {
        Start(t) => MdEvent::Start(tag(t.to_end())), End(t) => MdEvent::End(tag(t)),
        Code(t) => MdEvent::Code(t.into()), Text(t) => MdEvent::Text(t.into()),
        SoftBreak => MdEvent::Break, HardBreak => MdEvent::Break, Rule => MdEvent::Rule,
        _ => MdEvent::Other,
    }).collect()
}

/// The terminal preview of `input`: its pulldown-cmark events with tables and
/// strikethrough enabled, laid out by `render_events`.
pub fn render_markdown(input: &str) -> (lines: Vec<TermLine>)
    ensures
        lines_view(lines@) == preview_spec(md_events(input@, PREVIEW_OPTIONS)),
{
    let events = parse_events(input, PREVIEW_OPTIONS);
    render_events(&events)
}

} // verus!
