//! A Markdown note editor's logic, verified with Verus: text model, formatting actions,
//! list continuation, find & replace, wiki links, table of contents, HTML export, the
//! notebook with its trash, stars and tags, shortcuts, themes, attachments, the window
//! icon, syntax highlighting, and a terminal editor with its preview.
pub mod text;
pub mod editor_actions;
pub mod find_replace;
pub mod note;
pub mod wikilinks;
pub mod toc;
pub mod export;
pub mod settings;
pub mod continuation;
pub mod notebook;
pub mod shortcuts;
pub mod theme;
pub mod attachments;
pub mod editor;
pub mod icon;
pub mod term_preview;
pub mod highlight;
