# markdown_editor

A note-taking Markdown editor: a verified library (`src/`) and an egui window around it
(`app/`).

The library holds the editor's logic with Verus contracts: formatting actions and list
continuation, find & replace, wiki links and backlinks, the quick switcher's fuzzy
ranking, the table of contents, HTML export, the note list with its trash, stars and
tags, keyboard shortcuts, the themes' palettes, a line-based terminal editor and its
styled Markdown preview, and the editor's syntax highlighting. Markdown parsing, for
export and for the preview, goes through pulldown-cmark; highlighting goes through syntect.

`app/` draws the window with egui/eframe, stores notes and settings as JSON, lays out the
highlighted text with the editor's font, reads images from the clipboard and opens file dialogs.
