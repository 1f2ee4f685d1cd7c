use markdown_editor::find_replace::{
    char_index_for_byte, find_all, find_all_checked, match_counter, next_match, prev_match,
    replace_all, replace_all_checked, replace_current, FindReplaceState,
};
use markdown_editor::note::Note;
use markdown_editor::wikilinks::{
    build_backlink_index, extract, fuzzy_match, fuzzy_match_checked, render_for_preview, resolve,
    QuickSwitcherState,
};

#[test]
fn find_all_case_insensitive() {
    assert_eq!(find_all("Hello hello", "hello", false), vec![(0, 5), (6, 11)]);
}

#[test]
fn find_all_case_sensitive() {
    assert_eq!(find_all("Hello hello", "hello", true), vec![(6, 11)]);
    assert_eq!(find_all("aaa", "aa", true), vec![(0, 2)]);
    assert_eq!(find_all("abc", "", true), vec![]);
    assert_eq!(find_all_checked("día día", "día", true), Some(vec![(0, 4), (5, 9)]));
}

#[test]
fn replace_all_counts_matches() {
    assert_eq!(replace_all("Hello hello", "hello", "bye", false), ("bye bye".to_string(), 2));
    assert_eq!(replace_all("a-b-c", "-", "+", true), ("a+b+c".to_string(), 2));
    assert_eq!(replace_all("abc", "x", "y", false), ("abc".to_string(), 0));
    assert_eq!(replace_all("abc", "", "y", true), ("abc".to_string(), 0));
    assert_eq!(replace_all_checked("AbAb", "ab", "-", false), Some(("--".to_string(), 2)));
}

#[test]
fn replacing_a_text_by_itself_changes_nothing() {
    let (t, n) = replace_all("one two one", "one", "one", true);
    assert_eq!((t.as_str(), n), ("one two one", 2));
}

#[test]
fn find_bar_state() {
    let mut f = FindReplaceState::default();
    assert!(!f.visible && !f.show_replace && f.query.is_empty() && f.current_match == 0);
    f.open_replace();
    assert!(f.visible && f.show_replace && f.focus_query);
    f.open_find();
    assert!(f.visible && !f.show_replace);
    f.close();
    assert!(!f.visible);
}

#[test]
fn match_counter_and_stepping() {
    assert_eq!(match_counter(0, 0), "0/0");
    assert_eq!(match_counter(0, 3), "1/3");
    assert_eq!(match_counter(5, 3), "3/3");
    assert_eq!(next_match(2, 3), 0);
    assert_eq!(next_match(0, 3), 1);
    assert_eq!(prev_match(0, 3), 2);
    assert_eq!(prev_match(2, 3), 1);
}

#[test]
fn byte_offsets_to_characters() {
    assert_eq!(char_index_for_byte("aé b", 3), Some(2));
    assert_eq!(char_index_for_byte("aé b", 2), None);
    assert_eq!(char_index_for_byte("aé b", 5), Some(4));
    assert_eq!(char_index_for_byte("aé b", 6), None);
}

#[test]
fn replace_current_match_only() {
    let mut f = FindReplaceState::default();
    f.query = "o".to_string();
    f.replace_with = "0".to_string();
    f.case_sensitive = true;
    f.current_match = 1;
    assert_eq!(replace_current("foo", &f), Ok(Some("fo0".to_string())));
    f.current_match = 7;
    assert_eq!(replace_current("foo", &f), Ok(Some("fo0".to_string())));
    f.query = "z".to_string();
    assert_eq!(replace_current("foo", &f), Ok(None));
}

#[test]
fn extract_links() {
    let links = extract("See [[Note A]] and [[b|Alias]] and [[ ]] and [[x\ny]]");
    let got: Vec<(String, Option<String>)> =
        links.into_iter().map(|l| (l.target, l.alias)).collect();
    assert_eq!(
        got,
        vec![("Note A".to_string(), None), ("b".to_string(), Some("Alias".to_string()))]
    );
}

#[test]
fn extract_resumes_after_broken_span() {
    let links = extract("[[a\n[[b]]");
    assert_eq!(links.len(), 1);
    assert_eq!(links[0].target, "b");
    assert_eq!(links[0].alias, None);
}

#[test]
fn extract_stops_at_unclosed_link() {
    let links = extract("[[a]] [[unclosed");
    assert_eq!(links.len(), 1);
    assert_eq!(links[0].target, "a");
    assert!(extract("no links here").is_empty());
    let links = extract("[[ target | shown ]]");
    assert_eq!((links[0].target.as_str(), links[0].alias.as_deref()), ("target", Some("shown")));
}

fn note(title: &str, content: &str, trashed: bool) -> Note {
    let mut n = Note::new(title, content);
    n.trashed = trashed;
    n
}

#[test]
fn resolve_is_case_insensitive_and_skips_trash() {
    let notes = vec![note("Alpha", "", false), note("alpha", "", false), note("ALPHA", "", true)];
    assert_eq!(resolve(&notes, "ALPHA"), vec![0, 1]);
    assert_eq!(resolve(&notes, "beta"), vec![]);
}

#[test]
fn backlink_index() {
    let notes = vec![
        note("A", "[[B]] [[A]]", false),
        note("B", "see [[a|first]]", false),
        note("C", "[[B]]", true),
    ];
    let index = build_backlink_index(&notes);
    assert_eq!(index.len(), 2);
    let to_b = &index[&1];
    assert_eq!(to_b.len(), 1);
    assert_eq!(to_b[0].0, 0);
    assert_eq!(to_b[0].1.target, "B");
    let to_a = &index[&0];
    assert_eq!(to_a.len(), 1);
    assert_eq!(to_a[0].0, 1);
    assert_eq!(to_a[0].1.alias.as_deref(), Some("first"));
    assert!(!index.contains_key(&2));
}

#[test]
fn backlinks_never_point_to_their_source() {
    let notes = vec![note("Self", "[[self]] [[SELF]]", false)];
    assert!(build_backlink_index(&notes).is_empty());
}

#[test]
fn preview_marks_links() {
    assert_eq!(render_for_preview("See [[Note|Alias]] and [[x]]"), "See **[Alias]** and **[x]**");
    assert_eq!(render_for_preview("[[a\nb]]"), "[[a\nb]]");
    assert_eq!(render_for_preview("日本[[ノート| 別名 ]]です"), "日本**[別名]**です");
    assert_eq!(render_for_preview("plain [text]"), "plain [text]");
}

#[test]
fn fuzzy_scores() {
    assert_eq!(fuzzy_match("Hello World", ""), Some(0));
    assert_eq!(fuzzy_match("Hello World", "WORLD"), Some(6));
    assert_eq!(fuzzy_match("Hello World", "hwd"), Some(1018));
    assert_eq!(fuzzy_match("abc", "xyz"), None);
    assert_eq!(fuzzy_match("abc", "ca"), None);
    assert_eq!(fuzzy_match("日本語ノート", "ノート"), Some(9));
    assert_eq!(fuzzy_match_checked("Meeting notes", "mtg"), Some(Some(1011)));
}

#[test]
fn quick_switcher_state() {
    let mut qs = QuickSwitcherState::default();
    assert!(!qs.visible);
    qs.query = "abc".to_string();
    qs.selected = 3;
    qs.open();
    assert!(qs.visible && qs.query.is_empty() && qs.selected == 0 && qs.focus_query);
    qs.close();
    assert!(!qs.visible);
}

#[test]
fn replace_all_without_matches_keeps_text() {
    assert_eq!(replace_all("abc", "x", "y", true), ("abc".to_string(), 0));
    assert_eq!(replace_all("abc", "X", "y", false), ("abc".to_string(), 0));
    assert_eq!(replace_all("abc", "", "y", true), ("abc".to_string(), 0));
    assert!(find_all("abc", "x", true).is_empty());
}

#[test]
fn case_sensitive_replace_agrees_with_str_replace() {
    let cases = [("aaa", "aa", "b"), ("abcabc", "bc", "X"), ("héllo héllo", "é", "e"), ("abc", "x", "y")];
    for (t, q, r) in cases {
        let (out, n) = replace_all(t, q, r, true);
        assert_eq!(out, t.replace(q, r));
        assert_eq!(n, t.matches(q).count());
        assert_eq!(n, find_all(t, q, true).len());
    }
}
