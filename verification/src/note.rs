//! A note: a titled Markdown document with its sidebar flags.
use vstd::prelude::*;
use crate::text::push_char;

verus! {

/// One note of the notebook.
#[derive(Clone)]
pub struct Note {
    pub title: String,
    pub content: String,
    /// File the note was last saved to or opened from, if any.
    pub path: Option<String>,
    /// Edited since it was last written to its file.
    pub modified: bool,
    /// Lies in the trash.
    pub trashed: bool,
    /// Marked as a favourite.
    pub starred: bool,
    pub tags: Vec<String>,
}

/// The title shown in lists: the title, followed by `*` when the note has unsaved edits.
pub open spec fn display_title_spec(title: Seq<char>, modified: bool) -> Seq<char> {
    if modified {
        title.push('*')
    } else {
        title
    }
}

impl Note {
    /// A fresh note with the given title and content: no file, no flags, no tags.
    pub fn new(title: &str, content: &str) -> (n: Self)
        ensures
            n.title@ == title@,
            n.content@ == content@,
            n.path is None,
            !n.modified,
            !n.trashed,
            !n.starred,
            n.tags@.len() == 0,
    {
        Note {
            title: title.to_owned(),
            content: content.to_owned(),
            path: None,
            modified: false,
            trashed: false,
            starred: false,
            tags: Vec::new(),
        }
    }

    pub fn display_title(&self) -> (s: String)
        ensures
            s@ == display_title_spec(self.title@, self.modified),
    {
        let mut s = self.title.clone();
        if self.modified {
            push_char(&mut s, '*');
        }
        s
    }
}

impl Default for Note {
    /// An untitled note holding just its heading.
    fn default() -> (n: Self)
        ensures
            n.title@ == "Untitled"@,
            n.content@ == "# Untitled\n\n"@,
            n.path is None,
            !n.modified,
            !n.trashed,
            !n.starred,
            n.tags@.len() == 0,
    {
        Note::new("Untitled", "# Untitled\n\n")
    }
}

} // verus!
