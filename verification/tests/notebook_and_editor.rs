use markdown_editor::editor::{Editor, EditorKey};
use markdown_editor::find_replace::FindReplaceState;
use markdown_editor::note::Note;
use markdown_editor::notebook::{
    default_notes, join_tags, line_number_text, note_preview, parse_tags, Notebook,
};
use markdown_editor::shortcuts::{
    shortcut_commands, should_auto_save, status_message_expired, status_text, Command, KeyState,
};
use markdown_editor::editor_actions::EditorAction;
use markdown_editor::wikilinks::QuickSwitcherState;

fn note(title: &str, content: &str) -> Note {
    Note::new(title, content)
}

fn book(notes: Vec<Note>) -> Notebook {
    Notebook::new(notes)
}

#[test]
fn empty_store_gives_default_notes() {
    let nb = Notebook::new(Vec::new());
    assert_eq!(nb.notes.len(), 2);
    assert_eq!(nb.notes[0].title, "Markdownとは？");
    assert_eq!(nb.notes[1].title, "Welcome to the editor!");
    assert!(nb.notes[1].content.starts_with("# Welcome!\n\nThis is a Markdown editor"));
    assert_eq!(nb.selected, 0);
    assert!(!nb.notes_dirty && !nb.show_trash);
    assert_eq!(default_notes().len(), 2);
}

#[test]
fn new_note_is_selected() {
    let mut nb = book(vec![note("a", "")]);
    nb.new_note();
    assert_eq!(nb.notes.len(), 2);
    assert_eq!(nb.selected, 1);
    assert_eq!(nb.notes[1].title, "Untitled");
    assert!(nb.notes_dirty);
}

#[test]
fn trash_moves_selection_to_first_active_note() {
    let mut nb = book(vec![note("a", ""), note("b", ""), note("c", "")]);
    nb.move_to_trash(0);
    assert!(nb.notes[0].trashed);
    assert_eq!(nb.selected, 1);
    nb.selected = 2;
    nb.move_to_trash(1);
    assert_eq!(nb.selected, 2);
    nb.move_to_trash(2);
    assert_eq!(nb.selected, 0);
    assert_eq!(nb.trash_count(), 3);
    assert_eq!(nb.active_count(), 0);
    nb.move_to_trash(9);
    assert_eq!(nb.notes.len(), 3);
}

#[test]
fn restore_delete_and_star() {
    let mut nb = book(vec![note("a", ""), note("b", "")]);
    nb.move_to_trash(1);
    nb.restore_from_trash(1);
    assert!(!nb.notes[1].trashed);
    nb.toggle_star(0);
    assert!(nb.notes[0].starred);
    nb.toggle_star(0);
    assert!(!nb.notes[0].starred);
    nb.selected = 1;
    nb.delete_permanently(1);
    assert_eq!(nb.notes.len(), 1);
    assert_eq!(nb.selected, 0);
    nb.delete_permanently(0);
    assert_eq!((nb.notes.len(), nb.selected), (0, 0));
}

#[test]
fn valid_selection_in_each_view() {
    let mut nb = book(vec![note("a", ""), note("b", "")]);
    nb.notes[0].trashed = true;
    nb.ensure_valid_selection();
    assert_eq!(nb.selected, 1);
    nb.show_trash = true;
    nb.ensure_valid_selection();
    assert_eq!(nb.selected, 0);
    nb.notes[1].trashed = true;
    nb.show_trash = false;
    nb.notes_dirty = false;
    nb.ensure_valid_selection();
    assert_eq!(nb.notes.len(), 3);
    assert_eq!(nb.selected, 2);
    assert!(nb.notes_dirty);
}

#[test]
fn empty_trash_view_keeps_selection() {
    let mut nb = book(vec![note("a", "")]);
    nb.show_trash = true;
    nb.ensure_valid_selection();
    assert_eq!((nb.notes.len(), nb.selected), (1, 0));
}

#[test]
fn follow_links() {
    let mut nb = book(vec![note("Home", "[[Other]]"), note("other", "")]);
    nb.navigate_to_wikilink("OTHER");
    assert_eq!(nb.selected, 1);
    assert!(!nb.notes_dirty);
    nb.navigate_to_wikilink("New page");
    assert_eq!(nb.notes.len(), 3);
    assert_eq!(nb.selected, 2);
    assert_eq!(nb.notes[2].title, "New page");
    assert_eq!(nb.notes[2].content, "# New page\n\n");
    assert!(nb.notes[2].modified && nb.notes_dirty);
    nb.select_note_by_index(0);
    assert_eq!(nb.selected, 0);
    nb.select_note_by_index(10);
    assert_eq!(nb.selected, 0);
}

#[test]
fn sidebar_search() {
    let mut a = note("Groceries", "milk");
    a.tags = vec!["Home".to_string()];
    let b = note("Work", "Meeting at HOME office");
    let mut c = note("Trip", "home");
    c.trashed = true;
    let nb = book(vec![a, b, c]);
    assert_eq!(nb.sidebar_indices(""), vec![0, 1]);
    assert_eq!(nb.sidebar_indices("home"), vec![0, 1]);
    assert_eq!(nb.sidebar_indices("MILK"), vec![0]);
    assert_eq!(nb.sidebar_indices("xyz"), vec![]);
    let mut nb = nb;
    nb.show_trash = true;
    assert_eq!(nb.sidebar_indices("home"), vec![2]);
}

#[test]
fn sidebar_previews() {
    assert_eq!(note_preview("# Title\n\nFirst line"), "Title");
    assert_eq!(note_preview("#\n##  \n  text  "), "text");
    assert_eq!(note_preview(""), "");
    let long = "x".repeat(50);
    assert_eq!(note_preview(&long), "x".repeat(40));
}

#[test]
fn tags() {
    assert_eq!(parse_tags(" a, b ,,c "), vec!["a", "b", "c"]);
    assert_eq!(parse_tags(""), Vec::<String>::new());
    assert_eq!(parse_tags("x,"), vec!["x"]);
    assert_eq!(join_tags(&vec!["a".to_string(), "b".to_string()]), "a, b");
    assert_eq!(join_tags(&vec![]), "");
    assert_eq!(join_tags(&parse_tags("one,two")), "one, two");
}

#[test]
fn gutter_numbers() {
    assert_eq!(line_number_text(""), "1\n");
    assert_eq!(line_number_text("a"), "1\n");
    assert_eq!(line_number_text("a\nb"), "1\n2\n");
    assert_eq!(line_number_text("a\n"), "1\n");
    assert_eq!(line_number_text("a\n\n"), "1\n2\n");
}

#[test]
fn switcher_lists_best_matches_first() {
    let mut trashed = note("Alphabet", "");
    trashed.trashed = true;
    let nb = book(vec![note("Beta alpha", ""), note("alpha", ""), trashed, note("Zeta", "")]);
    assert_eq!(nb.switcher_candidates("alpha"), vec![(0, 1), (5, 0)]);
    assert_eq!(nb.switcher_candidates(""), vec![(0, 0), (0, 1), (0, 3)]);
    assert_eq!(nb.switcher_candidates_checked("zt"), Some(vec![(1004, 3)]));
}

#[test]
fn switcher_keeps_twenty() {
    let notes: Vec<Note> = (0..25).map(|i| note(&format!("n{}", i), "")).collect();
    let nb = book(notes);
    let c = nb.switcher_candidates("n");
    assert_eq!(c.len(), 20);
    assert_eq!(c[19], (0, 19));
}

#[test]
fn switcher_keys_navigate_and_create() {
    let mut nb = book(vec![note("a", ""), note("b", "")]);
    let mut qs = QuickSwitcherState::default();
    qs.open();
    let cands = vec![(0, 1), (3, 0)];
    assert!(!nb.switcher_keys(&mut qs, &cands, false, true, false));
    assert_eq!(qs.selected, 1);
    assert!(!nb.switcher_keys(&mut qs, &cands, false, true, false));
    assert_eq!(qs.selected, 0);
    assert!(!nb.switcher_keys(&mut qs, &cands, true, false, false));
    assert_eq!(qs.selected, 1);
    assert!(nb.switcher_keys(&mut qs, &cands, false, false, true));
    assert_eq!(nb.selected, 0);
    assert!(!qs.visible);
    qs.open();
    qs.query = "Fresh".to_string();
    assert!(nb.switcher_keys(&mut qs, &vec![], false, false, true));
    assert_eq!(nb.notes.len(), 3);
    assert_eq!((nb.selected, nb.notes[2].title.as_str()), (2, "Fresh"));
    qs.open();
    assert!(!nb.switcher_keys(&mut qs, &vec![], false, false, true));
}

#[test]
fn replace_in_selected_note() {
    let mut nb = book(vec![note("a", "foo foo"), note("b", "foo")]);
    let mut f = FindReplaceState::default();
    f.query = "FOO".to_string();
    f.replace_with = "bar".to_string();
    f.current_match = 1;
    assert!(nb.replace_current_match(&f));
    assert_eq!(nb.notes[0].content, "foo bar");
    assert!(nb.notes[0].modified && nb.notes_dirty);
    assert_eq!(nb.replace_all(&f), Some(1));
    assert_eq!(nb.notes[0].content, "bar bar");
    assert_eq!(nb.notes[1].content, "foo");
    f.query = "zzz".to_string();
    assert!(!nb.replace_current_match(&f));
    assert_eq!(nb.replace_all(&f), Some(0));
}

#[test]
fn files_titles_and_tags() {
    let mut nb = book(vec![note("a", "")]);
    nb.add_opened_note("readme", "# Readme", "/tmp/readme.md".to_string());
    assert_eq!(nb.selected, 1);
    assert_eq!(nb.notes[1].path.as_deref(), Some("/tmp/readme.md"));
    nb.set_title("Read me".to_string());
    assert!(nb.notes[1].modified);
    nb.mark_saved("/tmp/b.md".to_string());
    assert!(!nb.notes[1].modified);
    assert_eq!(nb.notes[1].path.as_deref(), Some("/tmp/b.md"));
    nb.set_tags("x, y");
    assert_eq!(nb.notes[1].tags, vec!["x", "y"]);
    nb.set_content("new".to_string());
    assert_eq!(nb.notes[1].content, "new");
}

fn keys() -> KeyState {
    KeyState {
        ctrl: false,
        shift: false,
        alt: false,
        key_s: false,
        key_n: false,
        key_o: false,
        key_b: false,
        key_i: false,
        key_k: false,
        key_e: false,
        key_q: false,
        key_l: false,
        key_t: false,
        key_f: false,
        key_h: false,
        key_v: false,
        key_p: false,
        key_backslash: false,
        arrow_up: false,
        arrow_down: false,
        escape: false,
        paste: false,
    }
}

#[test]
fn shortcut_mapping() {
    let mut k = keys();
    k.ctrl = true;
    k.key_b = true;
    let c = shortcut_commands(k, false, false);
    assert_eq!(c.len(), 1);
    assert!(matches!(c[0], Command::Action(EditorAction::Wrap { prefix: "**", suffix: "**" })));
    let mut k = keys();
    k.ctrl = true;
    k.shift = true;
    k.key_b = true;
    assert!(shortcut_commands(k, false, false).is_empty());
    let mut k = keys();
    k.ctrl = true;
    k.key_f = true;
    k.escape = true;
    let c = shortcut_commands(k, false, false);
    assert!(matches!(c[..], [Command::OpenFind, Command::CloseFind]));
    let mut k = keys();
    k.escape = true;
    assert!(shortcut_commands(k, false, false).is_empty());
    assert!(matches!(shortcut_commands(k, true, true)[..], [Command::CloseFind, Command::CloseSwitcher]));
    let mut k = keys();
    k.alt = true;
    k.arrow_up = true;
    k.paste = true;
    assert!(matches!(shortcut_commands(k, false, false)[..], [Command::MoveLines(true), Command::PasteImage(false)]));
    let mut k = keys();
    k.ctrl = true;
    k.key_backslash = true;
    k.shift = true;
    k.key_t = true;
    assert!(matches!(
        shortcut_commands(k, false, false)[..],
        [Command::Action(EditorAction::LinePrefix("- [ ] ")), Command::CycleView]
    ));
}

#[test]
fn status_and_autosave() {
    assert!(should_auto_save(true, true, 3));
    assert!(!should_auto_save(true, true, 2));
    assert!(!should_auto_save(false, true, 10));
    assert!(!should_auto_save(true, false, 10));
    assert!(status_message_expired(6));
    assert!(!status_message_expired(5));
    assert_eq!(status_text(&Some("hi".to_string()), true, true), "hi");
    assert_eq!(status_text(&None, true, true), "● 自動保存中…");
    assert_eq!(status_text(&None, true, false), "● 未保存の変更");
    assert_eq!(status_text(&None, false, true), "✓ 保存済み");
}

#[test]
fn editor_text_round_trip() {
    let mut e = Editor::new();
    assert_eq!(e.lines(), &["".to_string()]);
    e.insert_text("ab\ncd\n");
    assert_eq!(e.lines(), &["ab".to_string(), "cd".to_string(), "".to_string()]);
    assert_eq!(e.content(), "ab\ncd\n");
    assert_eq!((e.cursor_row(), e.cursor_line(), e.cursor_col()), (0, 0, 0));
    e.insert_text("last é");
    assert_eq!(e.content(), "last é");
}

#[test]
fn editor_keys() {
    let mut e = Editor::new();
    e.insert_text("ab\ncd");
    e.handle_key(EditorKey::Char('x'));
    assert_eq!((e.content().as_str(), e.cursor_col()), ("xab\ncd", 1));
    e.handle_key(EditorKey::End);
    assert_eq!(e.cursor_col(), 3);
    e.handle_key(EditorKey::Enter);
    assert_eq!(e.content(), "xab\n\ncd");
    assert_eq!((e.cursor_row(), e.cursor_col()), (1, 0));
    e.handle_key(EditorKey::Backspace);
    assert_eq!(e.content(), "xab\ncd");
    assert_eq!((e.cursor_row(), e.cursor_col()), (0, 3));
    e.handle_key(EditorKey::Delete);
    assert_eq!(e.content(), "xabcd");
    e.handle_key(EditorKey::Home);
    e.handle_key(EditorKey::Tab);
    assert_eq!((e.content().as_str(), e.cursor_col()), ("    xabcd", 4));
    e.handle_key(EditorKey::Delete);
    assert_eq!(e.content(), "    abcd");
    e.handle_key(EditorKey::Left);
    e.handle_key(EditorKey::Right);
    e.handle_key(EditorKey::Right);
    assert_eq!(e.cursor_col(), 5);
    e.handle_key(EditorKey::Other);
    assert_eq!(e.content(), "    abcd");
}

#[test]
fn editor_moves_and_scroll() {
    let mut e = Editor::new();
    e.insert_text("long line\nab\nxyz");
    e.handle_key(EditorKey::End);
    e.handle_key(EditorKey::Down);
    assert_eq!((e.cursor_row(), e.cursor_col()), (1, 2));
    e.handle_key(EditorKey::Right);
    assert_eq!((e.cursor_row(), e.cursor_col()), (2, 0));
    e.handle_key(EditorKey::CtrlEnd);
    assert_eq!((e.cursor_row(), e.cursor_col()), (2, 3));
    e.adjust_scroll(2);
    assert_eq!(e.scroll_offset, 1);
    e.handle_key(EditorKey::Up);
    e.handle_key(EditorKey::Up);
    assert_eq!((e.cursor_row(), e.scroll_offset), (0, 0));
    e.handle_key(EditorKey::Left);
    assert_eq!((e.cursor_row(), e.cursor_col()), (0, 1));
    e.handle_key(EditorKey::CtrlHome);
    assert_eq!((e.cursor_row(), e.cursor_col(), e.scroll_offset), (0, 0, 0));
}

#[test]
fn trash_then_restore_gives_back_the_notes() {
    let mut nb = book(vec![note("a", "x"), note("b", "y")]);
    nb.notes[1].starred = true;
    nb.move_to_trash(1);
    nb.restore_from_trash(1);
    assert_eq!(nb.notes.len(), 2);
    assert_eq!((nb.notes[1].title.as_str(), nb.notes[1].content.as_str()), ("b", "y"));
    assert!(!nb.notes[1].trashed && nb.notes[1].starred);
}

#[test]
fn backspace_undoes_typing() {
    let mut e = Editor::new();
    e.insert_text("hello");
    e.handle_key(EditorKey::Right);
    e.handle_key(EditorKey::Char('é'));
    assert_eq!((e.content().as_str(), e.cursor_col()), ("héello", 2));
    e.handle_key(EditorKey::Backspace);
    assert_eq!(e.content(), "hello");
    assert_eq!((e.cursor_row(), e.cursor_col()), (0, 1));
}

#[test]
fn cursor_stays_within_its_line() {
    let mut e = Editor::new();
    e.handle_key(EditorKey::Tab);
    assert_eq!((e.content().as_str(), e.cursor_col()), ("    ", 4));
    e.handle_key(EditorKey::Right);
    assert_eq!(e.cursor_col(), 4);
    e.handle_key(EditorKey::Enter);
    e.handle_key(EditorKey::Char('a'));
    e.handle_key(EditorKey::Up);
    assert_eq!((e.cursor_row(), e.cursor_col()), (0, 1));
    e.handle_key(EditorKey::End);
    e.handle_key(EditorKey::Delete);
    assert_eq!((e.content().as_str(), e.cursor_row(), e.cursor_col()), ("    a", 0, 4));
    e.handle_key(EditorKey::Backspace);
    assert_eq!((e.content().as_str(), e.cursor_col()), ("   a", 3));
    assert!(e.cursor_col() <= e.lines()[e.cursor_row()].len());
}
