//! The notebook behind the editor window: the notes, which one is selected, the trash
//! view, and the operations the sidebar, the link panel and the quick switcher perform.
use vstd::prelude::*;
use crate::find_replace::{
    replace_all_checked, replace_all_fits, replace_all_spec, replace_current, replace_one_ok,
    replace_one_spec, FindReplaceState,
};
use crate::note::Note;
use crate::text::{
    chars_of, dec, extend_str, find_from, find_from_exec, first_index,
    first_index_in, lemma_first_index, lowercase, push_decimal, split_lines, split_lines_exec,
    string_of, string_of_range, to_lowercase, trim, trim_bounds,
};
use crate::toc::{lead_run, lemma_lead_run, run_forward};
use crate::wikilinks::{
    fuzzy_match, fuzzy_spec, reaches, resolve, resolve_spec,
    score_fits, QuickSwitcherState,
};

verus! {

/// The notes and the view state that selects among them.
pub struct Notebook {
    pub notes: Vec<Note>,
    /// Index of the note shown in the editor.
    pub selected: usize,
    /// The sidebar lists the trash instead of the notes.
    pub show_trash: bool,
    /// The notes changed since they were last stored.
    pub notes_dirty: bool,
}

/// `n` is the note `Note::default()` makes.
pub open spec fn is_untitled(n: Note) -> bool {
    &&& n.title@ == "Untitled"@
    &&& n.content@ == "# Untitled\n\n"@
    &&& n.path is None
    &&& !n.modified
    &&& !n.trashed
    &&& !n.starred
    &&& n.tags@.len() == 0
}

/// The content of a note created for the title `t`: a level-one heading with it.
pub open spec fn titled_content(t: Seq<char>) -> Seq<char> {
    seq!['#', ' '] + t + seq!['\n', '\n']
}

/// `n` is the note created for a link or switcher query `t`: titled `t`, headed by it,
/// and marked as modified.
pub open spec fn is_created_for(n: Note, t: Seq<char>) -> bool {
    &&& n.title@ == t
    &&& n.content@ == titled_content(t)
    &&& n.path is None
    &&& n.modified
    &&& !n.trashed
    &&& !n.starred
    &&& n.tags@.len() == 0
}

/// Index of the first note at or after `from` whose trash flag is `flag`.
pub open spec fn first_flagged(notes: Seq<Note>, flag: bool, from: int) -> Option<int>
    decreases notes.len() - from,
{
    if from < 0 || from >= notes.len() {
        None
    } else if notes[from].trashed == flag {
        Some(from)
    } else {
        first_flagged(notes, flag, from + 1)
    }
}

pub proof fn lemma_first_flagged(notes: Seq<Note>, flag: bool, from: int)
    requires
        0 <= from,
    ensures
        first_flagged(notes, flag, from) matches Some(k) ==> from <= k < notes.len()
            && notes[k].trashed == flag && forall|m: int|
            from <= m < k ==> #[trigger] notes[m].trashed != flag,
        first_flagged(notes, flag, from) is None ==> forall|m: int|
            from <= m < notes.len() ==> #[trigger] notes[m].trashed != flag,
    decreases notes.len() - from,
{
    if from < notes.len() && notes[from].trashed != flag {
        lemma_first_flagged(notes, flag, from + 1);
    }
}

/// `a` and `b` differ at most in the trash flag.
pub open spec fn same_but_trashed(a: Note, b: Note) -> bool {
    &&& a.title == b.title
    &&& a.content == b.content
    &&& a.path == b.path
    &&& a.modified == b.modified
    &&& a.starred == b.starred
    &&& a.tags == b.tags
}

/// `a` and `b` differ at most in the star flag.
pub open spec fn same_but_starred(a: Note, b: Note) -> bool {
    &&& a.title == b.title
    &&& a.content == b.content
    &&& a.path == b.path
    &&& a.modified == b.modified
    &&& a.trashed == b.trashed
    &&& a.tags == b.tags
}

/// The two notes a new notebook starts with.
pub open spec fn is_default_notes(v: Seq<Note>) -> bool {
    &&& v.len() == 2
    &&& v[0].title@ == "Markdownとは？"@
    &&& v[0].content@ == "# Markdownとは？\n\n**Markdown(マークダウン)**とは、`# 見出し` `* リスト` などシンプルな書き方で**文書構造**を明示でき、装飾されたHTML文書に変換できる**軽量マークアップ言語**です。\n\n## 箇条書き\n\n- リスト１\n- リスト２\n- リスト３\n\n## コードブロック\n\n```rust\nfn main() {\n    println!(\"Hello, World!\");\n}\n```\n\n## テーブル\n\n| タイトル１ | タイトル２ | タイトル３ |\n|-----------|-----------|----------|\n| みかん    | りんご    | ぶどう    |\n| いちご    | もも      | なし     |\n\n## テキスト装飾\n\n**太字テキスト** と *斜体テキスト* と ~~打ち消し線~~ です。\n\n> ブロッククォート: 重要な引用文はこのように表示されます。\n\n---\n\nインラインコード: `let x = 42;`\n"@
    &&& v[1].title@ == "Welcome to the editor!"@
    &&& v[1].content@ == "# Welcome!\n\nThis is a Markdown editor built with Rust and egui.\n\n## Getting Started\n\n1. Click a note in the sidebar\n2. Edit in the left pane\n3. See the preview on the right\n\n## Shortcuts\n\n- **Ctrl+S** — Save to file\n- **Ctrl+O** — Open file\n- **Ctrl+N** — New note\n- **Ctrl+B/I/E/K** — Format\n"@
    &&& forall|k: int| 0 <= k < 2 ==> {
        &&& (#[trigger] v[k]).path is None
        &&& !v[k].modified
        &&& !v[k].trashed
        &&& !v[k].starred
        &&& v[k].tags@.len() == 0
    }
}

/// The notes a notebook starts with when none were stored: an introduction to Markdown
/// and a welcome note.
pub fn default_notes() -> (v: Vec<Note>)
    ensures
        is_default_notes(v@),
{
    let mut v: Vec<Note> = Vec::new();
    v.push(Note::new("Markdownとは？", "# Markdownとは？\n\n**Markdown(マークダウン)**とは、`# 見出し` `* リスト` などシンプルな書き方で**文書構造**を明示でき、装飾されたHTML文書に変換できる**軽量マークアップ言語**です。\n\n## 箇条書き\n\n- リスト１\n- リスト２\n- リスト３\n\n## コードブロック\n\n```rust\nfn main() {\n    println!(\"Hello, World!\");\n}\n```\n\n## テーブル\n\n| タイトル１ | タイトル２ | タイトル３ |\n|-----------|-----------|----------|\n| みかん    | りんご    | ぶどう    |\n| いちご    | もも      | なし     |\n\n## テキスト装飾\n\n**太字テキスト** と *斜体テキスト* と ~~打ち消し線~~ です。\n\n> ブロッククォート: 重要な引用文はこのように表示されます。\n\n---\n\nインラインコード: `let x = 42;`\n"));
    v.push(Note::new("Welcome to the editor!", "# Welcome!\n\nThis is a Markdown editor built with Rust and egui.\n\n## Getting Started\n\n1. Click a note in the sidebar\n2. Edit in the left pane\n3. See the preview on the right\n\n## Shortcuts\n\n- **Ctrl+S** — Save to file\n- **Ctrl+O** — Open file\n- **Ctrl+N** — New note\n- **Ctrl+B/I/E/K** — Format\n"));
    v
}

/// A note for the title `t`, headed by it and marked as modified.
fn note_titled(t: &str) -> (n: Note)
    ensures
        is_created_for(n, t@),
{
    let mut c: Vec<char> = Vec::new();
    c.push('#');
    c.push(' ');
    extend_str(&mut c, t);
    c.push('\n');
    c.push('\n');
    assert(c@ =~= titled_content(t@));
    let content = string_of(&c);
    let mut n = Note::new(t, "");
    n.content = content;
    n.modified = true;
    n
}

impl Notebook {
    /// A notebook over the stored notes, or over the default notes when none were stored;
    /// the first note is selected.
    pub fn new(stored: Vec<Note>) -> (nb: Self)
        ensures
            stored@.len() > 0 ==> nb.notes@ == stored@,
            stored@.len() == 0 ==> is_default_notes(nb.notes@),
            nb.selected == 0,
            !nb.show_trash,
            !nb.notes_dirty,
    {
        let notes = if stored.len() == 0 {
            default_notes()
        } else {
            stored
        };
        Notebook { notes, selected: 0, show_trash: false, notes_dirty: false }
    }

    /// Appends an untitled note and selects it.
    pub fn new_note(&mut self)
        ensures
            final(self).notes@.len() == old(self).notes@.len() + 1,
            final(self).notes@.take(old(self).notes@.len() as int) == old(self).notes@,
            is_untitled(final(self).notes@.last()),
            final(self).selected == old(self).notes@.len(),
            final(self).show_trash == old(self).show_trash,
            final(self).notes_dirty,
    {
        self.notes.push(Note::default());
        self.selected = self.notes.len() - 1;
        self.notes_dirty = true;
        assert(self.notes@.take(old(self).notes@.len() as int) =~= old(self).notes@);
    }

    /// Moves note `idx` to the trash; when it was selected, the first note outside the
    /// trash (or the first note) is selected instead.  Out-of-range indices change nothing.
    pub fn move_to_trash(&mut self, idx: usize)
        ensures
            idx >= old(self).notes@.len() ==> *final(self) == *old(self),
            idx < old(self).notes@.len() ==> {
                &&& final(self).notes@.len() == old(self).notes@.len()
                &&& forall|k: int|
                    0 <= k < old(self).notes@.len() && k != idx ==> #[trigger] final(self).notes@[k]
                        == old(self).notes@[k]
                &&& final(self).notes@[idx as int].trashed
                &&& same_but_trashed(final(self).notes@[idx as int], old(self).notes@[idx as int])
                &&& final(self).selected == (if old(self).selected == idx {
                    match first_flagged(final(self).notes@, false, 0) {
                        Some(k) => k as usize,
                        None => 0,
                    }
                } else {
                    old(self).selected
                })
                &&& final(self).show_trash == old(self).show_trash
                &&& final(self).notes_dirty
            },
    {
        if idx >= self.notes.len() {
            return;
        }
        self.notes[idx].trashed = true;
        if self.selected == idx {
            let mut k: usize = 0;
            while k < self.notes.len() && self.notes[k].trashed
                invariant
                    k <= self.notes@.len(),
                    first_flagged(self.notes@, false, 0) == first_flagged(self.notes@, false, k as int),
                decreases self.notes@.len() - k,
            {
                k = k + 1;
            }
            self.selected = if k < self.notes.len() {
                k
            } else {
                0
            };
        }
        self.notes_dirty = true;
    }

    /// Takes note `idx` out of the trash.  Out-of-range indices change nothing.
    pub fn restore_from_trash(&mut self, idx: usize)
        ensures
            idx >= old(self).notes@.len() ==> *final(self) == *old(self),
            idx < old(self).notes@.len() ==> {
                &&& final(self).notes@.len() == old(self).notes@.len()
                &&& forall|k: int|
                    0 <= k < old(self).notes@.len() && k != idx ==> #[trigger] final(self).notes@[k]
                        == old(self).notes@[k]
                &&& !final(self).notes@[idx as int].trashed
                &&& same_but_trashed(final(self).notes@[idx as int], old(self).notes@[idx as int])
                &&& final(self).selected == old(self).selected
                &&& final(self).show_trash == old(self).show_trash
                &&& final(self).notes_dirty
            },
    {
        if idx >= self.notes.len() {
            return;
        }
        self.notes[idx].trashed = false;
        self.notes_dirty = true;
    }

    /// Deletes note `idx` for good; a selection past the end moves to the last note.
    /// Out-of-range indices change nothing.
    pub fn delete_permanently(&mut self, idx: usize)
        ensures
            idx >= old(self).notes@.len() ==> *final(self) == *old(self),
            idx < old(self).notes@.len() ==> {
                &&& final(self).notes@ == old(self).notes@.remove(idx as int)
                &&& final(self).selected == (if old(self).selected >= final(self).notes@.len() {
                    if final(self).notes@.len() == 0 {
                        0
                    } else {
                        (final(self).notes@.len() - 1) as usize
                    }
                } else {
                    old(self).selected
                })
                &&& final(self).show_trash == old(self).show_trash
                &&& final(self).notes_dirty
            },
    {
        if idx >= self.notes.len() {
            return;
        }
        self.notes.remove(idx);
        if self.selected >= self.notes.len() {
            self.selected = if self.notes.len() == 0 {
                0
            } else {
                self.notes.len() - 1
            };
        }
        self.notes_dirty = true;
    }

    /// Flips the star of note `idx`.  Out-of-range indices change nothing.
    pub fn toggle_star(&mut self, idx: usize)
        ensures
            idx >= old(self).notes@.len() ==> *final(self) == *old(self),
            idx < old(self).notes@.len() ==> {
                &&& final(self).notes@.len() == old(self).notes@.len()
                &&& forall|k: int|
                    0 <= k < old(self).notes@.len() && k != idx ==> #[trigger] final(self).notes@[k]
                        == old(self).notes@[k]
                &&& final(self).notes@[idx as int].starred != old(self).notes@[idx as int].starred
                &&& same_but_starred(final(self).notes@[idx as int], old(self).notes@[idx as int])
                &&& final(self).selected == old(self).selected
                &&& final(self).show_trash == old(self).show_trash
                &&& final(self).notes_dirty
            },
    {
        if idx >= self.notes.len() {
            return;
        }
        let s = self.notes[idx].starred;
        self.notes[idx].starred = !s;
        self.notes_dirty = true;
    }

    /// Keeps the selection on a note of the current view (the notes, or the trash): when
    /// the selected note is not in it, the view's first note is selected; when the notes
    /// view is empty, an untitled note is created and selected.
    pub fn ensure_valid_selection(&mut self)
        ensures
            ({
                let o = *old(self);
                let visible = o.selected < o.notes@.len() && o.notes@[o.selected as int].trashed
                    == o.show_trash;
                if visible {
                    *final(self) == o
                } else {
                    match first_flagged(o.notes@, o.show_trash, 0) {
                        Some(k) => final(self).notes == o.notes && final(self).selected == k
                            && final(self).notes_dirty == o.notes_dirty,
                        None => if o.show_trash {
                            *final(self) == o
                        } else {
                            &&& final(self).notes@.len() == o.notes@.len() + 1
                            &&& final(self).notes@.take(o.notes@.len() as int) == o.notes@
                            &&& is_untitled(final(self).notes@.last())
                            &&& final(self).selected == o.notes@.len()
                            &&& final(self).notes_dirty
                        },
                    }
                }
            }),
            final(self).show_trash == old(self).show_trash,
            !final(self).show_trash ==> final(self).selected < final(self).notes@.len()
                && !final(self).notes@[final(self).selected as int].trashed,
            (final(self).show_trash && exists|k: int|
                0 <= k < final(self).notes@.len() && #[trigger] final(self).notes@[k].trashed)
                ==> final(self).selected < final(self).notes@.len()
                && final(self).notes@[final(self).selected as int].trashed,
    {
        proof {
            lemma_first_flagged(self.notes@, self.show_trash, 0);
        }
        if self.selected < self.notes.len() && self.notes[self.selected].trashed == self.show_trash {
            return;
        }
        let mut k: usize = 0;
        while k < self.notes.len() && self.notes[k].trashed != self.show_trash
            invariant
                k <= self.notes@.len(),
                first_flagged(self.notes@, self.show_trash, 0) == first_flagged(
                    self.notes@,
                    self.show_trash,
                    k as int,
                ),
            decreases self.notes@.len() - k,
        {
            k = k + 1;
        }
        if k < self.notes.len() {
            self.selected = k;
        } else if !self.show_trash {
            self.new_note();
        }
    }

    /// Selects note `idx` when there is one.
    pub fn select_note_by_index(&mut self, idx: usize)
        ensures
            final(self).notes == old(self).notes,
            final(self).selected == (if idx < old(self).notes@.len() {
                idx
            } else {
                old(self).selected
            }),
            final(self).show_trash == old(self).show_trash,
            final(self).notes_dirty == old(self).notes_dirty,
    {
        if idx < self.notes.len() {
            self.selected = idx;
        }
    }

    /// Appends the note created for `title` and selects it.
    pub fn create_titled(&mut self, title: &str)
        ensures
            final(self).notes@.len() == old(self).notes@.len() + 1,
            final(self).notes@.take(old(self).notes@.len() as int) == old(self).notes@,
            is_created_for(final(self).notes@.last(), title@),
            final(self).selected == old(self).notes@.len(),
            final(self).show_trash == old(self).show_trash,
            final(self).notes_dirty,
    {
        let n = note_titled(title);
        self.notes.push(n);
        self.selected = self.notes.len() - 1;
        self.notes_dirty = true;
        assert(self.notes@.take(old(self).notes@.len() as int) =~= old(self).notes@);
    }

    /// Follows a wiki link: selects the first note the link reaches, or creates a note
    /// titled `target` and selects it.
    pub fn navigate_to_wikilink(&mut self, target: &str)
        ensures
            resolve_spec(old(self).notes@, target@).len() > 0 ==> final(self).notes
                == old(self).notes && final(self).selected == resolve_spec(
                old(self).notes@,
                target@,
            )[0] && final(self).notes_dirty == old(self).notes_dirty,
            resolve_spec(old(self).notes@, target@).len() == 0 ==> {
                &&& final(self).notes@.len() == old(self).notes@.len() + 1
                &&& final(self).notes@.take(old(self).notes@.len() as int) == old(self).notes@
                &&& is_created_for(final(self).notes@.last(), target@)
                &&& final(self).selected == old(self).notes@.len()
                &&& final(self).notes_dirty
            },
            final(self).show_trash == old(self).show_trash,
    {
        let matches = resolve(self.notes.as_slice(), target);
        if matches.len() > 0 {
            self.selected = matches[0];
        } else {
            self.create_titled(target);
        }
    }

    /// Replaces the selected note's text after an edit, marking it modified.
    pub fn set_content(&mut self, content: String)
        requires
            old(self).selected < old(self).notes@.len(),
        ensures
            is_edit(*old(self), *final(self), content@),
    {
        let i = self.selected;
        self.notes[i].content = content;
        self.notes[i].modified = true;
        self.notes_dirty = true;
    }
}

/// `n` is `o` after the selected note's text became `content`: the note is marked
/// modified, the notebook dirty, and nothing else changed.
pub open spec fn is_edit(o: Notebook, n: Notebook, content: Seq<char>) -> bool {
    let s = o.selected as int;
    &&& n.notes@.len() == o.notes@.len()
    &&& forall|k: int| 0 <= k < o.notes@.len() && k != s ==> #[trigger] n.notes@[k] == o.notes@[k]
    &&& n.notes@[s].content@ == content
    &&& n.notes@[s].modified
    &&& n.notes@[s].title == o.notes@[s].title
    &&& n.notes@[s].path == o.notes@[s].path
    &&& n.notes@[s].trashed == o.notes@[s].trashed
    &&& n.notes@[s].starred == o.notes@[s].starred
    &&& n.notes@[s].tags == o.notes@[s].tags
    &&& n.selected == o.selected
    &&& n.show_trash == o.show_trash
    &&& n.notes_dirty
}

// ---------------------------------------------------------------------------
// Sidebar
// ---------------------------------------------------------------------------

/// `p` occurs in `h`.
pub open spec fn contains_seq(h: Seq<char>, p: Seq<char>) -> bool {
    find_from(h, p, 0) is Some
}

/// Note `n` matches the lowercased search query `q`: the query is empty, or occurs in the
/// lowercased title, content or one of the lowercased tags.
pub open spec fn note_matches(n: Note, q: Seq<char>) -> bool {
    ||| q.len() == 0
    ||| contains_seq(lowercase(n.title@), q)
    ||| contains_seq(lowercase(n.content@), q)
    ||| exists|k: int| 0 <= k < n.tags@.len() && contains_seq(lowercase(#[trigger] n.tags@[k]@), q)
}

/// The indices below `n` of the notes the sidebar lists: those of the current view
/// (`show_trash`) that match `q`, ascending.
pub open spec fn listed_upto(notes: Seq<Note>, show_trash: bool, q: Seq<char>, n: int) -> Seq<int>
    decreases n,
{
    if n <= 0 {
        seq![]
    } else if notes[n - 1].trashed == show_trash && note_matches(notes[n - 1], q) {
        listed_upto(notes, show_trash, q, n - 1).push(n - 1)
    } else {
        listed_upto(notes, show_trash, q, n - 1)
    }
}

/// What `sidebar_indices` returns.
pub open spec fn sidebar_spec(notes: Seq<Note>, show_trash: bool, query: Seq<char>) -> Seq<int> {
    listed_upto(notes, show_trash, lowercase(query), notes.len() as int)
}

/// Number of the notes below `n` whose trash flag is `flag`.
pub open spec fn count_flagged(notes: Seq<Note>, flag: bool, n: int) -> nat
    decreases n,
{
    if n <= 0 {
        0
    } else if notes[n - 1].trashed == flag {
        count_flagged(notes, flag, n - 1) + 1
    } else {
        count_flagged(notes, flag, n - 1)
    }
}

/// `lowercase(s)` holds `q`.
fn lower_contains(s: &str, q: &Vec<char>) -> (b: bool)
    ensures
        b == contains_seq(lowercase(s@), q@),
{
    let l = to_lowercase(s);
    let lv = chars_of(l.as_str());
    find_from_exec(&lv, q, 0).is_some()
}

/// Note `n` matches the lowercased query `q`.
fn matches_query(n: &Note, q: &Vec<char>) -> (b: bool)
    ensures
        b == note_matches(*n, q@),
{
    if q.len() == 0 {
        return true;
    }
    if lower_contains(n.title.as_str(), q) || lower_contains(n.content.as_str(), q) {
        return true;
    }
    let mut k: usize = 0;
    while k < n.tags.len()
        invariant
            k <= n.tags@.len(),
            forall|m: int| 0 <= m < k ==> !contains_seq(lowercase(#[trigger] n.tags@[m]@), q@),
        decreases n.tags@.len() - k,
    {
        if lower_contains(n.tags[k].as_str(), q) {
            return true;
        }
        k = k + 1;
    }
    false
}

/// The first line of `content` with text besides `#` marks, without them and trimmed.
pub open spec fn first_preview(lines: Seq<Seq<char>>) -> Seq<char>
    decreases lines.len(),
{
    if lines.len() == 0 {
        seq![]
    } else if preview_line(lines[0]).len() > 0 {
        preview_line(lines[0])
    } else {
        first_preview(lines.drop_first())
    }
}

/// A line without its leading `#` marks, trimmed.
pub open spec fn preview_line(l: Seq<char>) -> Seq<char> {
    trim(l.skip(lead_run(l, '#') as int))
}

/// The preview the sidebar shows under a note's title: the first line with text besides
/// `#` marks, without them, trimmed and cut to 40 characters.
pub open spec fn preview_spec(content: Seq<char>) -> Seq<char> {
    let p = first_preview(split_lines(content));
    if p.len() > 40 {
        p.take(40)
    } else {
        p
    }
}

/// The sidebar preview of a note's content (see `preview_spec`).
pub fn note_preview(content: &str) -> (r: String)
    ensures
        r@ == preview_spec(content@),
{
    let c = chars_of(content);
    let lines = split_lines_exec(&c, 0, c.len());
    assert(c@.subrange(0, c@.len() as int) =~= content@);
    let ghost all = lines.deep_view();
    assert(all.skip(0) =~= all);
    let mut k: usize = 0;
    while k < lines.len()
        invariant
            k <= lines@.len(),
            all == lines.deep_view(),
            all == split_lines(content@),
            all.len() == lines@.len(),
            first_preview(all) == first_preview(all.skip(k as int)),
        decreases lines@.len() - k,
    {
        let line = &lines[k];
        assert(all[k as int] == line@);
        let h = run_forward(line, 0, line.len(), '#');
        proof {
            assert(line@.subrange(0, line@.len() as int) =~= line@);
            lemma_lead_run(line@, '#');
        }
        let (a, b) = trim_bounds(line, h, line.len());
        proof {
            assert(line@.skip(lead_run(line@, '#') as int) =~= line@.subrange(h as int, line@.len() as int));
            assert(all.skip(k as int)[0] == all[k as int]);
            assert(all.skip(k as int).drop_first() =~= all.skip(k + 1));
        }
        if a < b {
            let end = if b - a > 40 {
                a + 40
            } else {
                b
            };
            proof {
                let p = preview_line(line@);
                assert(p =~= line@.subrange(a as int, b as int));
                if b - a > 40 {
                    assert(p.take(40) =~= line@.subrange(a as int, end as int));
                }
            }
            return string_of_range(line, a, end);
        }
        k = k + 1;
    }
    assert(all.skip(k as int) =~= Seq::<Seq<char>>::empty());
    String::new()
}

// ---------------------------------------------------------------------------
// Tags and line numbers
// ---------------------------------------------------------------------------

/// The tags of the comma-separated list `s[i..]`: each piece between commas, trimmed;
/// empty pieces are dropped.
pub open spec fn tags_from(s: Seq<char>, i: int) -> Seq<Seq<char>>
    decreases s.len() - i,
{
    if i < 0 || i > s.len() {
        seq![]
    } else {
        let e = match first_index(s, ',', i) {
            Some(j) => j,
            None => s.len() as int,
        };
        proof {
            lemma_first_index(s, ',', i);
        }
        let t = trim(s.subrange(i, e));
        let rest = if e < s.len() {
            tags_from(s, e + 1)
        } else {
            seq![]
        };
        if t.len() > 0 {
            seq![t] + rest
        } else {
            rest
        }
    }
}

/// Strings seen as character sequences.
pub open spec fn strings_view(v: Seq<String>) -> Seq<Seq<char>> {
    v.map_values(|s: String| s@)
}

/// The tags typed into the tag field: split at commas, trimmed, empty ones dropped.
pub fn parse_tags(text: &str) -> (tags: Vec<String>)
    ensures
        strings_view(tags@) == tags_from(text@, 0),
{
    let v = chars_of(text);
    let n = v.len();
    let mut tags: Vec<String> = Vec::new();
    let mut i: usize = 0;
    loop
        invariant
            i <= n,
            n == v@.len(),
            v@ == text@,
            tags_from(text@, 0) == strings_view(tags@) + tags_from(v@, i as int),
        decreases n - i,
    {
        let e = match first_index_in(&v, ',', i, n) {
            Some(j) => j,
            None => n,
        };
        proof {
            lemma_first_index(v@, ',', i as int);
            crate::toc::lemma_first_index_shift(v@, ',', i as int, n as int);
        }
        let (a, b) = trim_bounds(&v, i, e);
        let ghost before = strings_view(tags@);
        if a < b {
            tags.push(string_of_range(&v, a, b));
            assert(strings_view(tags@) =~= before.push(v@.subrange(a as int, b as int)));
        }
        if e < n {
            i = e + 1;
        } else {
            assert(strings_view(tags@) + Seq::<Seq<char>>::empty() =~= strings_view(tags@));
            return tags;
        }
    }
}

/// `tags` joined with `", "`.
pub open spec fn joined(tags: Seq<Seq<char>>) -> Seq<char>
    decreases tags.len(),
{
    if tags.len() == 0 {
        seq![]
    } else if tags.len() == 1 {
        tags[0]
    } else {
        joined(tags.drop_last()) + seq![',', ' '] + tags.last()
    }
}

/// The tag field's text: the tags joined with `", "`.
pub fn join_tags(tags: &Vec<String>) -> (r: String)
    ensures
        r@ == joined(strings_view(tags@)),
{
    let mut out: Vec<char> = Vec::new();
    let mut k: usize = 0;
    while k < tags.len()
        invariant
            k <= tags@.len(),
            out@ == joined(strings_view(tags@).take(k as int)),
        decreases tags@.len() - k,
    {
        let ghost before = out@;
        if k > 0 {
            out.push(',');
            out.push(' ');
        }
        extend_str(&mut out, tags[k].as_str());
        proof {
            let t = strings_view(tags@);
            assert(t.take(k + 1).drop_last() =~= t.take(k as int));
            if k == 0 {
                assert(t.take(1) =~= seq![t[0]]);
            }
        }
        k = k + 1;
    }
    assert(strings_view(tags@).take(tags@.len() as int) =~= strings_view(tags@));
    string_of(&out)
}

/// Number of `'\n'` in `s`.
pub open spec fn newline_count(s: Seq<char>) -> nat
    decreases s.len(),
{
    if s.len() == 0 {
        0
    } else {
        newline_count(s.drop_last()) + if s.last() == '\n' {
            1nat
        } else {
            0nat
        }
    }
}

/// Number of lines of `s` as `str::lines` counts them: a final line break ends the last
/// line instead of starting an empty one.
pub open spec fn line_count_spec(s: Seq<char>) -> nat {
    if s.len() == 0 {
        0
    } else if s.last() == '\n' {
        newline_count(s)
    } else {
        newline_count(s) + 1
    }
}

/// The numbers `1` to `k`, each on a line of its own.
pub open spec fn numbers_upto(k: nat) -> Seq<char>
    decreases k,
{
    if k == 0 {
        seq![]
    } else {
        numbers_upto((k - 1) as nat) + dec(k) + seq!['\n']
    }
}

/// The gutter text beside the editor: one number per line of `content`, at least one.
pub open spec fn gutter_spec(content: Seq<char>) -> Seq<char> {
    let n = line_count_spec(content);
    numbers_upto(if n == 0 {
        1
    } else {
        n
    })
}

proof fn lemma_newline_count_le(s: Seq<char>)
    ensures
        newline_count(s) <= s.len(),
    decreases s.len(),
{
    if s.len() > 0 {
        lemma_newline_count_le(s.drop_last());
    }
}

/// The line-number gutter of `content` (see `gutter_spec`).
pub fn line_number_text(content: &str) -> (r: String)
    ensures
        r@ == gutter_spec(content@),
{
    let c = chars_of(content);
    let mut nl: usize = 0;
    let mut i: usize = 0;
    while i < c.len()
        invariant
            i <= c@.len(),
            nl == newline_count(c@.take(i as int)),
            nl <= i,
        decreases c@.len() - i,
    {
        assert(c@.take(i + 1).drop_last() =~= c@.take(i as int));
        if c[i] == '\n' {
            nl = nl + 1;
        }
        i = i + 1;
    }
    assert(c@.take(c@.len() as int) =~= c@);
    proof {
        if c@.len() > 0 && c@.last() != '\n' {
            lemma_newline_count_le(c@.drop_last());
        }
    }
    let count = if c.len() == 0 {
        1
    } else if c[c.len() - 1] == '\n' {
        if nl == 0 {
            1
        } else {
            nl
        }
    } else {
        nl + 1
    };
    let mut out: Vec<char> = Vec::new();
    let mut k: usize = 0;
    while k < count
        invariant
            k <= count,
            out@ == numbers_upto(k as nat),
        decreases count - k,
    {
        k = k + 1;
        push_decimal(&mut out, k as u64);
        out.push('\n');
    }
    string_of(&out)
}

impl Notebook {
    /// Indices of the notes the sidebar lists for the search `query`: those of the
    /// current view whose title, content or one of whose tags holds the query, compared in
    /// lowercase; every note of the view when the query is empty.
    pub fn sidebar_indices(&self, query: &str) -> (r: Vec<usize>)
        ensures
            r@.map_values(|k: usize| k as int) == sidebar_spec(self.notes@, self.show_trash, query@),
    {
        let ql = to_lowercase(query);
        let q = chars_of(ql.as_str());
        let mut r: Vec<usize> = Vec::new();
        let mut k: usize = 0;
        while k < self.notes.len()
            invariant
                k <= self.notes@.len(),
                q@ == lowercase(query@),
                r@.map_values(|k: usize| k as int) == listed_upto(
                    self.notes@,
                    self.show_trash,
                    q@,
                    k as int,
                ),
            decreases self.notes@.len() - k,
        {
            let ghost before = r@.map_values(|k: usize| k as int);
            if self.notes[k].trashed == self.show_trash && matches_query(&self.notes[k], &q) {
                r.push(k);
                assert(r@.map_values(|k: usize| k as int) =~= before.push(k as int));
            }
            k = k + 1;
        }
        r
    }

    /// Number of notes in the trash.
    pub fn trash_count(&self) -> (n: usize)
        ensures
            n == count_flagged(self.notes@, true, self.notes@.len() as int),
    {
        self.count_with(true)
    }

    /// Number of notes outside the trash.
    pub fn active_count(&self) -> (n: usize)
        ensures
            n == count_flagged(self.notes@, false, self.notes@.len() as int),
    {
        self.count_with(false)
    }

    fn count_with(&self, flag: bool) -> (n: usize)
        ensures
            n == count_flagged(self.notes@, flag, self.notes@.len() as int),
    {
        let mut n: usize = 0;
        let mut k: usize = 0;
        while k < self.notes.len()
            invariant
                k <= self.notes@.len(),
                n == count_flagged(self.notes@, flag, k as int),
                n <= k,
            decreases self.notes@.len() - k,
        {
            if self.notes[k].trashed == flag {
                n = n + 1;
            }
            k = k + 1;
        }
        n
    }
}

// ---------------------------------------------------------------------------
// Quick switcher
// ---------------------------------------------------------------------------

/// The quick switcher lists at most this many notes.
pub const MAX_CANDIDATES: usize = 20;

/// A scored candidate: the note's fuzzy score and its index.
pub type CandidateView = (int, int);

/// The notes below `n` outside the trash whose title matches `query`, with their score,
/// by index.
pub open spec fn scored_upto(notes: Seq<Note>, query: Seq<char>, n: int) -> Seq<CandidateView>
    decreases n,
{
    if n <= 0 {
        seq![]
    } else {
        let prev = scored_upto(notes, query, n - 1);
        if !notes[n - 1].trashed && fuzzy_spec(notes[n - 1].title@, query) is Some {
            prev.push((fuzzy_spec(notes[n - 1].title@, query)->0, n - 1))
        } else {
            prev
        }
    }
}

/// `s` with `x` inserted after every element whose score is not above its own (and
/// before the trailing ones that score above it).
pub open spec fn insert_by_score(s: Seq<CandidateView>, x: CandidateView) -> Seq<CandidateView>
    decreases s.len(),
{
    if s.len() == 0 {
        seq![x]
    } else if s.last().0 <= x.0 {
        s.push(x)
    } else {
        insert_by_score(s.drop_last(), x).push(s.last())
    }
}

/// `s` sorted by score, keeping the order of equal scores (a stable sort).
pub open spec fn sort_by_score(s: Seq<CandidateView>) -> Seq<CandidateView>
    decreases s.len(),
{
    if s.len() == 0 {
        seq![]
    } else {
        insert_by_score(sort_by_score(s.drop_last()), s.last())
    }
}

/// What `switcher_candidates` returns: the scored notes sorted by score, stably, cut to
/// the first `MAX_CANDIDATES`.
pub open spec fn candidates_spec(notes: Seq<Note>, query: Seq<char>) -> Seq<CandidateView> {
    let c = sort_by_score(scored_upto(notes, query, notes.len() as int));
    if c.len() > MAX_CANDIDATES {
        c.take(MAX_CANDIDATES as int)
    } else {
        c
    }
}

/// Every title outside the trash can be scored.
pub open spec fn titles_fit(notes: Seq<Note>) -> bool {
    forall|k: int| 0 <= k < notes.len() && !notes[k].trashed ==> score_fits(lowercase(#[trigger] notes[k].title@))
}

/// Candidates seen as integer pairs.
pub open spec fn candidates_view(v: Seq<(i32, usize)>) -> Seq<CandidateView> {
    v.map_values(|c: (i32, usize)| (c.0 as int, c.1 as int))
}

/// Inserting at the position found from the back is `insert_by_score`.
proof fn lemma_insert_by_score(s: Seq<CandidateView>, x: CandidateView, p: int)
    requires
        0 <= p <= s.len(),
        forall|j: int| p <= j < s.len() ==> #[trigger] s[j].0 > x.0,
        p > 0 ==> s[p - 1].0 <= x.0,
    ensures
        insert_by_score(s, x) == s.insert(p, x),
    decreases s.len(),
{
    if s.len() == 0 {
        assert(s.insert(p, x) =~= seq![x]);
    } else if s.last().0 <= x.0 {
        assert(p == s.len());
        assert(s.insert(p, x) =~= s.push(x));
    } else {
        lemma_insert_by_score(s.drop_last(), x, p);
        assert(s.drop_last().insert(p, x).push(s.last()) =~= s.insert(p, x));
    }
}

/// Inserts `x` into `v` after every candidate whose score is not above its own.
fn insert_sorted(v: &mut Vec<(i32, usize)>, x: (i32, usize))
    ensures
        candidates_view(final(v)@) == insert_by_score(
            candidates_view(old(v)@),
            (x.0 as int, x.1 as int),
        ),
{
    let ghost s = candidates_view(v@);
    let mut p = v.len();
    while p > 0 && v[p - 1].0 > x.0
        invariant
            p <= v@.len(),
            s == candidates_view(v@),
            forall|j: int| p <= j < s.len() ==> #[trigger] s[j].0 > x.0,
        decreases p,
    {
        p = p - 1;
    }
    proof {
        lemma_insert_by_score(s, (x.0 as int, x.1 as int), p as int);
    }
    v.insert(p, x);
    assert(candidates_view(v@) =~= s.insert(p as int, (x.0 as int, x.1 as int)));
}

impl Notebook {
    /// The quick switcher's list for `query`: the notes outside the trash whose title
    /// fuzzily matches, as (score, index), best score first, ties in note order, at most
    /// `MAX_CANDIDATES` of them.
    pub fn switcher_candidates(&self, query: &str) -> (r: Vec<(i32, usize)>)
        requires
            titles_fit(self.notes@),
        ensures
            candidates_view(r@) == candidates_spec(self.notes@, query@),
    {
        let mut sorted: Vec<(i32, usize)> = Vec::new();
        let mut k: usize = 0;
        while k < self.notes.len()
            invariant
                k <= self.notes@.len(),
                titles_fit(self.notes@),
                candidates_view(sorted@) == sort_by_score(scored_upto(self.notes@, query@, k as int)),
            decreases self.notes@.len() - k,
        {
            let ghost prev = scored_upto(self.notes@, query@, k as int);
            if !self.notes[k].trashed {
                match fuzzy_match(self.notes[k].title.as_str(), query) {
                    Some(score) => {
                        insert_sorted(&mut sorted, (score, k));
                        assert(prev.push((score as int, k as int)).drop_last() =~= prev);
                    },
                    None => {},
                }
            }
            k = k + 1;
        }
        sorted.truncate(MAX_CANDIDATES);
        sorted
    }

    /// `switcher_candidates`, or `None` when some title outside the trash is too large to
    /// be scored.
    pub fn switcher_candidates_checked(&self, query: &str) -> (r: Option<Vec<(i32, usize)>>)
        ensures
            r is None <==> !titles_fit(self.notes@),
            r matches Some(v) ==> candidates_view(v@) == candidates_spec(self.notes@, query@),
    {
        let mut k: usize = 0;
        while k < self.notes.len()
            invariant
                k <= self.notes@.len(),
                forall|m: int| 0 <= m < k && !self.notes@[m].trashed ==> score_fits(lowercase(#[trigger] self.notes@[m].title@)),
            decreases self.notes@.len() - k,
        {
            if !self.notes[k].trashed {
                if crate::wikilinks::fuzzy_match_checked(self.notes[k].title.as_str(), query).is_none() {
                    return None;
                }
            }
            k = k + 1;
        }
        Some(self.switcher_candidates(query))
    }
}

// ---------------------------------------------------------------------------
// Laws of the note list and the switcher
// ---------------------------------------------------------------------------

/// Moving a note to the trash and restoring it gives back the same list of notes, when
/// the note was not in the trash before.
pub proof fn lemma_trash_then_restore(a: Notebook, b: Notebook, c: Notebook, idx: usize)
    requires
        idx < a.notes@.len(),
        !a.notes@[idx as int].trashed,
        b.notes@.len() == a.notes@.len(),
        forall|k: int| 0 <= k < a.notes@.len() && k != idx ==> #[trigger] b.notes@[k] == a.notes@[k],
        same_but_trashed(b.notes@[idx as int], a.notes@[idx as int]),
        c.notes@.len() == b.notes@.len(),
        forall|k: int| 0 <= k < b.notes@.len() && k != idx ==> #[trigger] c.notes@[k] == b.notes@[k],
        !c.notes@[idx as int].trashed,
        same_but_trashed(c.notes@[idx as int], b.notes@[idx as int]),
    ensures
        c.notes@ == a.notes@,
{
    assert(c.notes@[idx as int] == a.notes@[idx as int]);
    assert(c.notes@ =~= a.notes@);
}

/// Starring a note twice gives back the same list of notes.
pub proof fn lemma_star_twice(a: Notebook, b: Notebook, c: Notebook, idx: usize)
    requires
        idx < a.notes@.len(),
        b.notes@.len() == a.notes@.len(),
        forall|k: int| 0 <= k < a.notes@.len() && k != idx ==> #[trigger] b.notes@[k] == a.notes@[k],
        b.notes@[idx as int].starred != a.notes@[idx as int].starred,
        same_but_starred(b.notes@[idx as int], a.notes@[idx as int]),
        c.notes@.len() == b.notes@.len(),
        forall|k: int| 0 <= k < b.notes@.len() && k != idx ==> #[trigger] c.notes@[k] == b.notes@[k],
        c.notes@[idx as int].starred != b.notes@[idx as int].starred,
        same_but_starred(c.notes@[idx as int], b.notes@[idx as int]),
    ensures
        c.notes@ == a.notes@,
{
    assert(c.notes@[idx as int] == a.notes@[idx as int]);
    assert(c.notes@ =~= a.notes@);
}

/// `s` is sorted by score.
pub open spec fn score_sorted(s: Seq<CandidateView>) -> bool {
    forall|i: int, j: int| 0 <= i < j < s.len() ==> #[trigger] s[i].0 <= #[trigger] s[j].0
}

proof fn lemma_insert_keeps_sorted(s: Seq<CandidateView>, x: CandidateView)
    requires
        score_sorted(s),
    ensures
        score_sorted(insert_by_score(s, x)),
        insert_by_score(s, x).to_multiset() == s.to_multiset().insert(x),
    decreases s.len(),
{
    broadcast use vstd::multiset::group_multiset_axioms;
    broadcast use vstd::seq_lib::group_to_multiset_ensures;

    if s.len() == 0 {
        assert(seq![x] =~= Seq::<CandidateView>::empty().push(x));
    } else if s.last().0 <= x.0 {
    } else {
        let d = s.drop_last();
        assert(score_sorted(d));
        lemma_insert_keeps_sorted(d, x);
        let r = insert_by_score(d, x);
        assert(s =~= d.push(s.last()));
        assert forall|i: int, j: int| 0 <= i < j < r.push(s.last()).len() implies #[trigger] r.push(s.last())[i].0 <= #[trigger] r.push(s.last())[j].0 by {
            if j == r.len() {
                let e = r[i];
                assert(r.to_multiset().count(e) > 0);
                assert(d.to_multiset().insert(x).count(e) > 0);
                if e != x {
                    assert(d.to_multiset().count(e) > 0);
                    assert(d.contains(e));
                    let w = choose|w: int| 0 <= w < d.len() && d[w] == e;
                    assert(s[w].0 <= s[s.len() - 1].0);
                }
            }
        }
    }
}

proof fn lemma_sort_sorted(s: Seq<CandidateView>)
    ensures
        score_sorted(sort_by_score(s)),
        sort_by_score(s).to_multiset() == s.to_multiset(),
    decreases s.len(),
{
    broadcast use vstd::multiset::group_multiset_axioms;
    broadcast use vstd::seq_lib::group_to_multiset_ensures;

    if s.len() > 0 {
        lemma_sort_sorted(s.drop_last());
        lemma_insert_keeps_sorted(sort_by_score(s.drop_last()), s.last());
        assert(s =~= s.drop_last().push(s.last()));
    }
}

proof fn lemma_scored_sound(notes: Seq<Note>, query: Seq<char>, n: int)
    requires
        0 <= n <= notes.len(),
    ensures
        forall|c: CandidateView| #[trigger] scored_upto(notes, query, n).contains(c) ==> 0 <= c.1 < n
            && !notes[c.1].trashed && fuzzy_spec(notes[c.1].title@, query) == Some(c.0),
    decreases n,
{
    broadcast use vstd::seq_lib::group_seq_properties;

    if n > 0 {
        lemma_scored_sound(notes, query, n - 1);
        let prev = scored_upto(notes, query, n - 1);
        if !notes[n - 1].trashed && fuzzy_spec(notes[n - 1].title@, query) is Some {
            let x = (fuzzy_spec(notes[n - 1].title@, query)->0, n - 1);
            assert forall|c: CandidateView| #[trigger] prev.push(x).contains(c) implies 0 <= c.1 < n
                && !notes[c.1].trashed && fuzzy_spec(notes[c.1].title@, query) == Some(c.0) by {
                assert(prev.push(x).contains(c) ==> prev.contains(c) || c == x);
            }
        }
    }
}

/// The quick switcher lists at most `MAX_CANDIDATES` notes, best score first; each is a
/// note outside the trash whose title fuzzily matches the query with the listed score.
pub proof fn lemma_candidates_ranked(notes: Seq<Note>, query: Seq<char>)
    ensures
        candidates_spec(notes, query).len() <= MAX_CANDIDATES,
        score_sorted(candidates_spec(notes, query)),
        forall|k: int| 0 <= k < candidates_spec(notes, query).len() ==> {
            let c = #[trigger] candidates_spec(notes, query)[k];
            &&& 0 <= c.1 < notes.len()
            &&& !notes[c.1].trashed
            &&& fuzzy_spec(notes[c.1].title@, query) == Some(c.0)
        },
{
    broadcast use vstd::multiset::group_multiset_axioms;
    broadcast use vstd::seq_lib::group_to_multiset_ensures;

    let all = scored_upto(notes, query, notes.len() as int);
    let sorted = sort_by_score(all);
    lemma_sort_sorted(all);
    lemma_scored_sound(notes, query, notes.len() as int);
    assert forall|k: int| 0 <= k < candidates_spec(notes, query).len() implies {
        let c = #[trigger] candidates_spec(notes, query)[k];
        &&& 0 <= c.1 < notes.len()
        &&& !notes[c.1].trashed
        &&& fuzzy_spec(notes[c.1].title@, query) == Some(c.0)
    } by {
        let c = sorted[k];
        assert(candidates_spec(notes, query)[k] == c);
        assert(sorted.to_multiset().count(c) > 0);
        assert(all.to_multiset().count(c) > 0);
        assert(all.contains(c));
    }
}

// ---------------------------------------------------------------------------
// Find & replace, the switcher's keys, files
// ---------------------------------------------------------------------------

/// The switcher's selection after the arrow keys, over `n` candidates: a selection past
/// the end restarts at the first; Down moves to the next, Up to the previous, wrapping.
pub open spec fn switcher_selection(sel: int, n: int, up: bool, down: bool) -> int {
    let s0 = if sel >= n { 0 } else { sel };
    let s1 = if n > 0 && down { (s0 + 1) % n } else { s0 };
    if n > 0 && up { (s1 + n - 1) % n } else { s1 }
}

impl Notebook {
    /// Replaces the find bar's current match in the selected note.  Returns whether the
    /// text changed; leaves everything as it is when there is no match or when it cannot
    /// be replaced (see `replace_one_ok`).
    pub fn replace_current_match(&mut self, find: &FindReplaceState) -> (changed: bool)
        requires
            old(self).selected < old(self).notes@.len(),
        ensures
            ({
                let text = old(self).notes@[old(self).selected as int].content@;
                let ok = replace_one_ok(text, find.query@, find.case_sensitive, find.current_match as nat);
                let res = replace_one_spec(text, find.query@, find.replace_with@, find.case_sensitive, find.current_match as nat);
                if ok && res is Some {
                    changed && is_edit(*old(self), *final(self), res->0)
                } else {
                    !changed && *final(self) == *old(self)
                }
            }),
    {
        let i = self.selected;
        match replace_current(self.notes[i].content.as_str(), find) {
            Ok(Some(t)) => {
                self.set_content(t);
                true
            },
            _ => false,
        }
    }

    /// Replaces every match of the find bar's query in the selected note.  Returns the
    /// number of replacements; the note is left as it is when there is none, or when the
    /// matches cannot be replaced (`None`, see `replace_all_fits`).
    pub fn replace_all(&mut self, find: &FindReplaceState) -> (count: Option<usize>)
        requires
            old(self).selected < old(self).notes@.len(),
        ensures
            ({
                let text = old(self).notes@[old(self).selected as int].content@;
                let fits = replace_all_fits(text, find.query@, find.case_sensitive);
                let (t, c) = replace_all_spec(text, find.query@, find.replace_with@, find.case_sensitive);
                &&& count is None <==> !fits
                &&& count matches Some(n) ==> n == c
                &&& if fits && c > 0 {
                    is_edit(*old(self), *final(self), t)
                } else {
                    *final(self) == *old(self)
                }
            }),
    {
        let i = self.selected;
        match replace_all_checked(
            self.notes[i].content.as_str(),
            find.query.as_str(),
            find.replace_with.as_str(),
            find.case_sensitive,
        ) {
            Some((t, n)) => {
                if n > 0 {
                    self.set_content(t);
                }
                Some(n)
            },
            None => None,
        }
    }

    /// Handles the quick switcher's keys over its `candidates`: the arrows move the
    /// selection (see `switcher_selection`); Enter opens the selected candidate, or, when
    /// there is none, creates a note titled by the query.  Returns whether the switcher
    /// closes.
    pub fn switcher_keys(
        &mut self,
        qs: &mut QuickSwitcherState,
        candidates: &Vec<(i32, usize)>,
        key_up: bool,
        key_down: bool,
        key_enter: bool,
    ) -> (close: bool)
        requires
            candidates@.len() <= MAX_CANDIDATES,
        ensures
            ({
                let n = candidates@.len() as int;
                let sel = switcher_selection(old(qs).selected as int, n, key_up, key_down);
                let q = old(qs).query@;
                &&& final(qs).query == old(qs).query
                &&& final(qs).focus_query == old(qs).focus_query
                &&& final(qs).selected == sel
                &&& final(qs).visible == (old(qs).visible && !close)
                &&& close == (key_enter && (n > 0 || q.len() > 0))
                &&& if n > 0 && key_enter {
                    final(self).notes == old(self).notes && final(self).selected == candidates@[sel].1
                        && final(self).notes_dirty == old(self).notes_dirty
                        && final(self).show_trash == old(self).show_trash
                } else if n == 0 && key_enter && q.len() > 0 {
                    &&& final(self).notes@.len() == old(self).notes@.len() + 1
                    &&& final(self).notes@.take(old(self).notes@.len() as int) == old(self).notes@
                    &&& is_created_for(final(self).notes@.last(), q)
                    &&& final(self).selected == old(self).notes@.len()
                    &&& final(self).show_trash == old(self).show_trash
                    &&& final(self).notes_dirty
                } else {
                    *final(self) == *old(self)
                }
            }),
    {
        let n = candidates.len();
        if qs.selected >= n {
            qs.selected = 0;
        }
        let mut close = false;
        if n > 0 {
            if key_down {
                qs.selected = (qs.selected + 1) % n;
            }
            if key_up {
                qs.selected = (qs.selected + n - 1) % n;
            }
            if key_enter {
                self.selected = candidates[qs.selected].1;
                close = true;
            }
        } else if key_enter && !qs.query.as_str().is_empty() {
            let q = qs.query.clone();
            self.create_titled(q.as_str());
            close = true;
        }
        if close {
            qs.close();
        }
        close
    }

    /// Adds a note read from the file `path` and selects it: titled `title`, holding
    /// `content`.
    pub fn add_opened_note(&mut self, title: &str, content: &str, path: String)
        ensures
            final(self).notes@.len() == old(self).notes@.len() + 1,
            final(self).notes@.take(old(self).notes@.len() as int) == old(self).notes@,
            final(self).notes@.last().title@ == title@,
            final(self).notes@.last().content@ == content@,
            final(self).notes@.last().path == Some(path),
            !final(self).notes@.last().modified,
            !final(self).notes@.last().trashed,
            !final(self).notes@.last().starred,
            final(self).notes@.last().tags@.len() == 0,
            final(self).selected == old(self).notes@.len(),
            final(self).show_trash == old(self).show_trash,
            final(self).notes_dirty,
    {
        let mut n = Note::new(title, content);
        n.path = Some(path);
        self.notes.push(n);
        self.selected = self.notes.len() - 1;
        self.notes_dirty = true;
        assert(self.notes@.take(old(self).notes@.len() as int) =~= old(self).notes@);
    }

    /// Records that the selected note was written to the file `path`.
    pub fn mark_saved(&mut self, path: String)
        requires
            old(self).selected < old(self).notes@.len(),
        ensures
            ({
                let s = old(self).selected as int;
                &&& final(self).notes@ == old(self).notes@.update(s, final(self).notes@[s])
                &&& final(self).notes@[s].path == Some(path)
                &&& !final(self).notes@[s].modified
                &&& final(self).notes@[s].title == old(self).notes@[s].title
                &&& final(self).notes@[s].content == old(self).notes@[s].content
                &&& final(self).notes@[s].trashed == old(self).notes@[s].trashed
                &&& final(self).notes@[s].starred == old(self).notes@[s].starred
                &&& final(self).notes@[s].tags == old(self).notes@[s].tags
                &&& final(self).selected == old(self).selected
                &&& final(self).show_trash == old(self).show_trash
                &&& final(self).notes_dirty
            }),
    {
        let i = self.selected;
        self.notes[i].path = Some(path);
        self.notes[i].modified = false;
        self.notes_dirty = true;
    }

    /// Renames the selected note, marking it modified.
    pub fn set_title(&mut self, title: String)
        requires
            old(self).selected < old(self).notes@.len(),
        ensures
            ({
                let s = old(self).selected as int;
                &&& final(self).notes@ == old(self).notes@.update(s, final(self).notes@[s])
                &&& final(self).notes@[s].title == title
                &&& final(self).notes@[s].modified
                &&& final(self).notes@[s].content == old(self).notes@[s].content
                &&& final(self).notes@[s].path == old(self).notes@[s].path
                &&& final(self).notes@[s].trashed == old(self).notes@[s].trashed
                &&& final(self).notes@[s].starred == old(self).notes@[s].starred
                &&& final(self).notes@[s].tags == old(self).notes@[s].tags
                &&& final(self).selected == old(self).selected
                &&& final(self).show_trash == old(self).show_trash
                &&& final(self).notes_dirty
            }),
    {
        let i = self.selected;
        self.notes[i].title = title;
        self.notes[i].modified = true;
        self.notes_dirty = true;
    }

    /// Sets the selected note's tags from the text of the tag field (see `parse_tags`).
    pub fn set_tags(&mut self, text: &str)
        requires
            old(self).selected < old(self).notes@.len(),
        ensures
            ({
                let s = old(self).selected as int;
                &&& final(self).notes@ == old(self).notes@.update(s, final(self).notes@[s])
                &&& strings_view(final(self).notes@[s].tags@) == tags_from(text@, 0)
                &&& final(self).notes@[s].title == old(self).notes@[s].title
                &&& final(self).notes@[s].content == old(self).notes@[s].content
                &&& final(self).notes@[s].path == old(self).notes@[s].path
                &&& final(self).notes@[s].modified == old(self).notes@[s].modified
                &&& final(self).notes@[s].trashed == old(self).notes@[s].trashed
                &&& final(self).notes@[s].starred == old(self).notes@[s].starred
                &&& final(self).selected == old(self).selected
                &&& final(self).show_trash == old(self).show_trash
                &&& final(self).notes_dirty
            }),
    {
        let i = self.selected;
        let tags = parse_tags(text);
        self.notes[i].tags = tags;
        self.notes_dirty = true;
    }
}

} // verus!
