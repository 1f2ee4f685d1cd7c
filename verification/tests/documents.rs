use markdown_editor::attachments::{check_clipboard_image, markdown_link_for, timestamp_filename};
use markdown_editor::export::{add_heading_ids, html_escape, markdown_to_html, strip_html_tags};
use markdown_editor::note::Note;
use markdown_editor::settings::{FontChoice, ThemeMode, ViewMode};
use markdown_editor::theme::{border_color, colors, highlight_theme, Rgb};
use markdown_editor::toc::extract;

#[test]
fn toc_headings() {
    let md = "# Title\n\nText\n  ## Sub ##\n####### no\n#nospace\n### \n";
    let h: Vec<(u8, String, usize)> =
        extract(md).into_iter().map(|h| (h.level, h.text, h.char_offset)).collect();
    assert_eq!(
        h,
        vec![(1, "Title".to_string(), 0), (2, "Sub".to_string(), 14), (3, "".to_string(), 46)]
    );
}

#[test]
fn toc_offsets_count_characters() {
    let h = extract("前書き\n## 章\n");
    assert_eq!(h.len(), 1);
    assert_eq!((h[0].level, h[0].text.as_str(), h[0].char_offset), (2, "章", 4));
    assert!(extract("").is_empty());
    let h = extract("  # A");
    assert_eq!((h[0].level, h[0].text.as_str(), h[0].char_offset), (1, "A", 0));
}

#[test]
fn escape_html() {
    assert_eq!(html_escape("<a href=\"x\">&</a>"), "&lt;a href=&quot;x&quot;&gt;&amp;&lt;/a&gt;");
    assert_eq!(html_escape("plain"), "plain");
}

#[test]
fn strip_tags() {
    assert_eq!(strip_html_tags("<b>bold</b> text"), "bold text");
    assert_eq!(strip_html_tags("a <br/> b"), "a  b");
}

#[test]
fn heading_ids() {
    assert_eq!(
        add_heading_ids("<h1>Hello <em>World</em></h1><h2 class=\"x\">Y</h2>"),
        "<h1 id=\"Hello World\">Hello <em>World</em></h1><h2 class=\"x\">Y</h2>"
    );
    assert_eq!(add_heading_ids("<h3>A &amp; B</h3>"), "<h3 id=\"A &amp;amp; B\">A &amp; B</h3>");
    assert_eq!(add_heading_ids("<h2>open"), "<h2>open");
    assert_eq!(add_heading_ids("no tags"), "no tags");
}

#[test]
fn export_document() {
    let html = markdown_to_html("# Hi\n\n~~x~~", "T&C");
    assert!(html.starts_with("<!DOCTYPE html>\n<html lang=\"ja\">\n<head>\n<meta charset=\"UTF-8\">\n"));
    assert!(html.contains("<title>T&amp;C</title>\n<style>\n"));
    assert!(html.contains("<article class=\"markdown-body\">\n<h1 id=\"Hi\">Hi</h1>\n<p><del>x</del></p>\n"));
    assert!(html.ends_with("\n</article>\n</body>\n</html>\n"));
}

#[test]
fn export_tables_and_tasks() {
    let html = markdown_to_html("| a |\n|---|\n| 1 |\n\n- [ ] todo\n", "t");
    assert!(html.contains("<table>"));
    assert!(html.contains("type=\"checkbox\""));
}

#[test]
fn notes() {
    let n = Note::new("A", "body");
    assert_eq!((n.title.as_str(), n.content.as_str()), ("A", "body"));
    assert!(!n.modified && !n.trashed && !n.starred && n.path.is_none() && n.tags.is_empty());
    assert_eq!(n.display_title(), "A");
    let mut m = n.clone();
    m.modified = true;
    assert_eq!(m.display_title(), "A*");
    let d = Note::default();
    assert_eq!((d.title.as_str(), d.content.as_str()), ("Untitled", "# Untitled\n\n"));
}

#[test]
fn font_choices() {
    assert_eq!(FontChoice::default(), FontChoice::YuGothic);
    assert_eq!(FontChoice::Meiryo.display_name(), "メイリオ");
    assert_eq!(FontChoice::BizUdGothic.display_name(), "BIZ UDP ゴシック");
    assert_eq!(
        FontChoice::YuGothic.font_candidates(),
        vec![r"C:\Windows\Fonts\YuGothM.ttc", r"C:\Windows\Fonts\YuGothR.ttc"]
    );
    assert_eq!(FontChoice::MsGothic.font_candidates(), vec![r"C:\Windows\Fonts\msgothic.ttc"]);
    assert_eq!(FontChoice::all().len(), 4);
    assert_eq!(FontChoice::all()[3], FontChoice::BizUdGothic);
}

#[test]
fn modes_and_cycle() {
    assert_eq!(ThemeMode::default(), ThemeMode::Dark);
    assert_eq!(ViewMode::default(), ViewMode::Split);
    assert_eq!(ViewMode::EditorOnly.next(), ViewMode::Split);
    assert_eq!(ViewMode::Split.next(), ViewMode::PreviewOnly);
    assert_eq!(ViewMode::PreviewOnly.next(), ViewMode::EditorOnly);
    assert_eq!(ViewMode::Split.next().next().next(), ViewMode::Split);
}

#[test]
fn palettes() {
    let dark = colors(ThemeMode::Dark);
    assert_eq!(dark.accent, Rgb { r: 45, g: 180, b: 140 });
    assert_eq!(dark.text_strong, Rgb { r: 255, g: 255, b: 255 });
    let light = colors(ThemeMode::Light);
    assert_eq!(light.editor_bg, Rgb { r: 255, g: 255, b: 255 });
    assert_eq!(light.selected_item_bg, dark.selected_item_bg);
    assert_eq!(border_color(ThemeMode::Light), Rgb { r: 215, g: 220, b: 226 });
    assert_eq!(highlight_theme(ThemeMode::Dark), "base16-mocha.dark");
    assert_eq!(highlight_theme(ThemeMode::Light), "InspiredGitHub");
}

#[test]
fn image_links_and_names() {
    assert_eq!(markdown_link_for("C:\\My Pics\\a b.png"), "![](C:/My%20Pics/a%20b.png)");
    assert_eq!(markdown_link_for(""), "![]()");
    assert_eq!(timestamp_filename(1700000000000, "png"), "img-1700000000000.png");
    assert_eq!(timestamp_filename(0, "jpg"), "img-0.jpg");
}

#[test]
fn clipboard_image_checks() {
    assert_eq!(check_clipboard_image(0, 5, 0), Err("clipboard image has zero dimensions".to_string()));
    assert_eq!(
        check_clipboard_image(2, 2, 10),
        Err("clipboard image is truncated (10 bytes, expected 16)".to_string())
    );
    assert_eq!(check_clipboard_image(2, 2, 16), Ok(16));
    assert_eq!(check_clipboard_image(2, 2, 20), Ok(16));
}

use markdown_editor::term_preview::{render_events, render_markdown, MdEvent, MdTag, TermColor, TermLine, TermSpan, TermStyle};

fn style(fg: Option<TermColor>, bg: Option<TermColor>, bold: bool, italic: bool) -> TermStyle {
    TermStyle { fg, bg, bold, italic }
}

fn span(t: &str, s: TermStyle) -> TermSpan {
    TermSpan { text: t.to_string(), style: s }
}

fn line(spans: Vec<TermSpan>, s: TermStyle) -> TermLine {
    TermLine { spans, style: s }
}

#[test]
fn terminal_preview_heading_and_paragraph() {
    let plain = style(None, None, false, false);
    let events = vec![
        MdEvent::Start(MdTag::Heading(2)),
        MdEvent::Text("Title".to_string()),
        MdEvent::End(MdTag::Heading(2)),
        MdEvent::Start(MdTag::Paragraph),
        MdEvent::Text("a ".to_string()),
        MdEvent::Start(MdTag::Emphasis),
        MdEvent::Text("b".to_string()),
        MdEvent::End(MdTag::Emphasis),
        MdEvent::Code("c".to_string()),
        MdEvent::End(MdTag::Paragraph),
    ];
    let lines = render_events(&events);
    assert_eq!(
        lines,
        vec![
            line(
                vec![
                    span("## ", style(Some(TermColor::Cyan), None, true, false)),
                    span("Title", style(None, None, true, false)),
                ],
                plain
            ),
            line(vec![], plain),
            line(
                vec![
                    span("a ", plain),
                    span("b", style(None, None, false, true)),
                    span("c", style(Some(TermColor::Green), Some(TermColor::DarkGray), true, false)),
                ],
                plain
            ),
            line(vec![], plain),
        ]
    );
}

#[test]
fn terminal_preview_lists_and_code() {
    let plain = style(None, None, false, false);
    let bullet = style(Some(TermColor::Yellow), None, false, false);
    let green = style(Some(TermColor::Green), None, false, false);
    let grey = style(Some(TermColor::DarkGray), None, false, false);
    let events = vec![
        MdEvent::Start(MdTag::List),
        MdEvent::Start(MdTag::Item),
        MdEvent::Text("a".to_string()),
        MdEvent::Start(MdTag::List),
        MdEvent::Start(MdTag::Item),
        MdEvent::Text("b".to_string()),
        MdEvent::End(MdTag::Item),
        MdEvent::End(MdTag::List),
        MdEvent::End(MdTag::Item),
        MdEvent::End(MdTag::List),
        MdEvent::Start(MdTag::CodeBlock),
        MdEvent::Text("x\r\ny\n".to_string()),
        MdEvent::End(MdTag::CodeBlock),
        MdEvent::Text("tail".to_string()),
    ];
    let lines = render_events(&events);
    let fence = "─────────────────────";
    assert_eq!(
        lines,
        vec![
            line(vec![span("• ", bullet), span("a", plain)], plain),
            line(vec![span("  • ", bullet), span("b", plain)], plain),
            line(vec![], plain),
            line(vec![span(fence, plain)], grey),
            line(vec![span("  x", plain)], green),
            line(vec![span("  y", plain)], green),
            line(vec![span(fence, plain)], grey),
            line(vec![], plain),
            line(vec![span("tail", plain)], plain),
        ]
    );
}

#[test]
fn terminal_preview_of_markdown_text() {
    let plain = style(None, None, false, false);
    assert_eq!(
        render_markdown("# A"),
        vec![
            line(
                vec![
                    span("# ", style(Some(TermColor::Yellow), None, true, false)),
                    span("A", style(None, None, true, false)),
                ],
                plain
            ),
            line(vec![], plain),
        ]
    );
    assert_eq!(
        render_markdown("- x"),
        vec![
            line(
                vec![span("\u{2022} ", style(Some(TermColor::Yellow), None, false, false)), span("x", plain)],
                plain
            ),
            line(vec![], plain),
        ]
    );
    assert_eq!(render_markdown(""), vec![]);
}

use markdown_editor::highlight::highlight_markdown;

#[test]
fn highlighted_pieces_cover_the_text() {
    let text = "# Title\n\nSome *text* and `code`.\n- item\n";
    for mode in [ThemeMode::Dark, ThemeMode::Light] {
        let spans = highlight_markdown(text, mode, (1, 2, 3, 255));
        let joined: String = spans.iter().map(|s| s.4.as_str()).collect();
        assert_eq!(joined, text);
        assert!(spans.len() >= 4);
    }
    assert!(highlight_markdown("", ThemeMode::Dark, (1, 2, 3, 255)).is_empty());
}
