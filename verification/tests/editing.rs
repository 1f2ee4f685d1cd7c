use markdown_editor::continuation::{continue_after_enter, detect_list_marker};
use markdown_editor::editor_actions::{apply, continue_list_on_enter, move_lines, EditorAction};

fn run(action: EditorAction, content: &str, s: usize, e: usize) -> (String, usize, usize) {
    let r = apply(action, content, s, e);
    (r.new_content, r.new_cursor_start, r.new_cursor_end)
}

#[test]
fn wrap_bold_selection() {
    let bold = EditorAction::Wrap { prefix: "**", suffix: "**" };
    assert_eq!(run(bold, "hello world", 0, 5), ("**hello** world".to_string(), 2, 7));
}

#[test]
fn wrap_toggles_off_inside_selection() {
    let bold = EditorAction::Wrap { prefix: "**", suffix: "**" };
    assert_eq!(run(bold, "**hello** world", 0, 9), ("hello world".to_string(), 0, 5));
}

#[test]
fn wrap_toggles_off_around_selection() {
    let bold = EditorAction::Wrap { prefix: "**", suffix: "**" };
    assert_eq!(run(bold, "**hello** world", 2, 7), ("hello world".to_string(), 0, 5));
}

#[test]
fn wrap_twice_restores_text() {
    let code = EditorAction::Wrap { prefix: "`", suffix: "`" };
    let (once, s, e) = run(code, "let x = 1;", 4, 5);
    assert_eq!(once, "let `x` = 1;");
    let (twice, s2, e2) = run(code, &once, s, e);
    assert_eq!(twice, "let x = 1;");
    assert_eq!((s2, e2), (4, 5));
}

#[test]
fn wrap_reversed_selection() {
    let em = EditorAction::Wrap { prefix: "*", suffix: "*" };
    assert_eq!(run(em, "abc", 3, 0), ("*abc*".to_string(), 1, 4));
}

#[test]
fn line_prefix_adds_and_removes() {
    let bullet = EditorAction::LinePrefix("- ");
    let (added, s, e) = run(bullet, "a\nb", 0, 3);
    assert_eq!((added.as_str(), s, e), ("- a\n- b", 2, 7));
    assert_eq!(run(bullet, &added, 0, 7), ("a\nb".to_string(), 0, 3));
}

#[test]
fn line_prefix_numbers_lines() {
    let numbered = EditorAction::LinePrefix("1. ");
    assert_eq!(run(numbered, "x\ny", 0, 3), ("1. x\n2. y".to_string(), 3, 9));
    assert_eq!(run(numbered, "x\ny", 0, 0), ("1. x\ny".to_string(), 3, 3));
}

#[test]
fn insert_replaces_selection() {
    assert_eq!(run(EditorAction::Insert("[[]]"), "ab", 1, 1), ("a[[]]b".to_string(), 5, 5));
    assert_eq!(run(EditorAction::Insert("X"), "abcd", 1, 3), ("aXd".to_string(), 2, 2));
}

#[test]
fn code_block_wraps_selection() {
    assert_eq!(
        run(EditorAction::CodeBlock("rust"), "code", 0, 4),
        ("\n```rust\ncode\n```\n".to_string(), 9, 13)
    );
}

#[test]
fn table_skeleton() {
    let expected = "\n| Header1 | Header2 |\n|--------|--------|\n|        |        |\n";
    assert_eq!(
        run(EditorAction::Table { rows: 1, cols: 2 }, "", 0, 0),
        (expected.to_string(), 63, 63)
    );
}

#[test]
fn enter_continues_bullets_and_numbers() {
    let r = continue_list_on_enter("- item", 6).unwrap();
    assert_eq!((r.new_content.as_str(), r.new_cursor_start, r.new_cursor_end), ("- item\n- ", 9, 9));
    let r = continue_list_on_enter("3. x", 4).unwrap();
    assert_eq!((r.new_content.as_str(), r.new_cursor_start), ("3. x\n4. ", 8));
    let r = continue_list_on_enter("  - [x] done", 12).unwrap();
    assert_eq!((r.new_content.as_str(), r.new_cursor_start), ("  - [x] done\n  - [ ] ", 21));
}

#[test]
fn enter_on_empty_item_ends_list() {
    let r = continue_list_on_enter("a\n- ", 4).unwrap();
    assert_eq!((r.new_content.as_str(), r.new_cursor_start), ("a\n", 2));
    let r = continue_list_on_enter("7. ", 3).unwrap();
    assert_eq!((r.new_content.as_str(), r.new_cursor_start), ("", 0));
}

#[test]
fn enter_on_plain_line_does_nothing() {
    assert!(continue_list_on_enter("plain", 5).is_none());
    assert!(continue_list_on_enter("12345", 5).is_none());
}

#[test]
fn move_line_up_and_down() {
    let r = move_lines("a\nb\nc", 2, 2, true).unwrap();
    assert_eq!((r.new_content.as_str(), r.new_cursor_start, r.new_cursor_end), ("b\na\nc", 0, 0));
    let r = move_lines("a\nb\nc", 2, 2, false).unwrap();
    assert_eq!((r.new_content.as_str(), r.new_cursor_start, r.new_cursor_end), ("a\nc\nb", 4, 4));
}

#[test]
fn move_line_up_then_down_restores() {
    let up = move_lines("one\ntwo\nthree", 4, 6, true).unwrap();
    assert_eq!(up.new_content, "two\none\nthree");
    let down = move_lines(&up.new_content, up.new_cursor_start, up.new_cursor_end, false).unwrap();
    assert_eq!(down.new_content, "one\ntwo\nthree");
    assert_eq!((down.new_cursor_start, down.new_cursor_end), (4, 6));
}

#[test]
fn move_line_at_edges() {
    assert!(move_lines("a\nb", 0, 0, true).is_none());
    assert!(move_lines("a\nb", 2, 2, false).is_none());
}

#[test]
fn list_marker_detection() {
    let m = detect_list_marker("  - [x] done").unwrap();
    assert_eq!((m.indent.as_str(), m.next_marker.as_str(), m.content_empty), ("  ", "- [ ] ", false));
    let m = detect_list_marker("9. ").unwrap();
    assert_eq!((m.indent.as_str(), m.next_marker.as_str(), m.content_empty), ("", "10. ", true));
    let m = detect_list_marker("\t>  ").unwrap();
    assert_eq!((m.indent.as_str(), m.next_marker.as_str(), m.content_empty), ("\t", "> ", true));
    assert!(detect_list_marker("text").is_none());
    assert!(detect_list_marker("12").is_none());
}

#[test]
fn list_continues_after_typed_break() {
    assert_eq!(continue_after_enter("- a\n", 4), Some(("- a\n- ".to_string(), 6)));
    assert_eq!(continue_after_enter("1. a\nrest", 5), Some(("1. a\n2. rest".to_string(), 8)));
    assert_eq!(continue_after_enter("x\n- \ny", 5), Some(("x\ny".to_string(), 2)));
    assert_eq!(continue_after_enter("plain\n", 6), None);
    assert_eq!(continue_after_enter("- a", 3), None);
}

#[test]
fn second_enter_ends_the_list() {
    let (once, pos) = continue_after_enter("- a\n", 4).unwrap();
    assert_eq!((once.as_str(), pos), ("- a\n- ", 6));
    let typed = format!("{}\n", once);
    let (twice, pos) = continue_after_enter(&typed, pos + 1).unwrap();
    assert_eq!((twice.as_str(), pos), ("- a\n", 4));
    let (n1, p1) = continue_after_enter("41. x\n", 6).unwrap();
    assert_eq!((n1.as_str(), p1), ("41. x\n42. ", 10));
    let (n2, p2) = continue_after_enter(&format!("{}\n", n1), p1 + 1).unwrap();
    assert_eq!((n2.as_str(), p2), ("41. x\n", 6));
}

#[test]
fn line_prefix_on_empty_line() {
    let bullet = EditorAction::LinePrefix("- ");
    assert_eq!(run(bullet, "a\n\nb", 2, 2), ("a\n- \nb".to_string(), 4, 4));
    assert_eq!(run(bullet, "- a\n\n- b", 0, 8), ("a\n\nb".to_string(), 0, 4));
    assert_eq!(run(bullet, "\n", 0, 1), ("- \n- ".to_string(), 2, 5));
}

#[test]
fn selection_direction_does_not_matter() {
    let actions = [
        EditorAction::Wrap { prefix: "**", suffix: "**" },
        EditorAction::LinePrefix("> "),
        EditorAction::Insert("x"),
        EditorAction::CodeBlock("rs"),
        EditorAction::Table { rows: 1, cols: 1 },
    ];
    for a in actions {
        let forward = run(a, "ab\ncd", 1, 4);
        let backward = run(a, "ab\ncd", 4, 1);
        assert_eq!(forward, backward);
        assert!(forward.1 <= forward.2 && forward.2 <= forward.0.chars().count());
    }
    assert_eq!(
        run(EditorAction::LinePrefix("> "), "ab\ncd", 4, 1),
        ("> ab\n> cd".to_string(), 3, 8)
    );
}

#[test]
fn enter_on_empty_numbered_item_with_leading_zeros() {
    let r = continue_list_on_enter("007. ", 5).unwrap();
    assert_eq!((r.new_content.as_str(), r.new_cursor_start, r.new_cursor_end), ("", 0, 0));
    let r = continue_list_on_enter("a\n  99999999999. ", 17).unwrap();
    assert_eq!((r.new_content.as_str(), r.new_cursor_start, r.new_cursor_end), ("a\n", 2, 2));
    let r = continue_list_on_enter("1. x\n2. ", 8).unwrap();
    assert_eq!((r.new_content.as_str(), r.new_cursor_start), ("1. x\n", 5));
}
