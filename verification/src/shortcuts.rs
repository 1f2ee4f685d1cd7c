//! Keyboard shortcuts and the status bar: what a frame's keys ask the window to do, and
//! what the status bar says.
use vstd::prelude::*;
use crate::editor_actions::EditorAction;

verus! {

/// The keys and modifiers of one frame that the shortcuts read.
#[derive(Clone, Copy, Debug)]
pub struct KeyState {
    pub ctrl: bool,
    pub shift: bool,
    pub alt: bool,
    pub key_s: bool,
    pub key_n: bool,
    pub key_o: bool,
    pub key_b: bool,
    pub key_i: bool,
    pub key_k: bool,
    pub key_e: bool,
    pub key_q: bool,
    pub key_l: bool,
    pub key_t: bool,
    pub key_f: bool,
    pub key_h: bool,
    pub key_v: bool,
    pub key_p: bool,
    pub key_backslash: bool,
    pub arrow_up: bool,
    pub arrow_down: bool,
    pub escape: bool,
    /// A paste event arrived this frame.
    pub paste: bool,
}

/// What the window does in answer to a shortcut.
#[derive(Clone, Copy, Debug)]
pub enum Command {
    SaveToFile,
    NewNote,
    OpenFile,
    /// Apply a formatting action to the editor's selection.
    Action(EditorAction),
    OpenFind,
    OpenReplace,
    CloseFind,
    /// Move the selected lines up (`true`) or down.
    MoveLines(bool),
    /// Paste an image from the clipboard; `true` reports when there is none.
    PasteImage(bool),
    OpenSwitcher,
    CloseSwitcher,
    CycleView,
}

/// `c` when `b` holds, nothing otherwise.
pub open spec fn when(b: bool, c: Command) -> Seq<Command> {
    if b {
        seq![c]
    } else {
        seq![]
    }
}

/// The commands of one frame, in the order the window carries them out; a later action
/// replaces an earlier one.  Escape closes the find bar and the switcher that are open at
/// that point, counting those the same frame opened.
pub open spec fn commands_spec(k: KeyState, find_visible: bool, switcher_visible: bool) -> Seq<Command> {
    let plain = k.ctrl && !k.shift;
    let chord = k.ctrl && k.shift;
    let find_open = find_visible || (plain && k.key_f) || (plain && k.key_h);
    let switcher_open = switcher_visible || (plain && k.key_p);
    when(plain && k.key_s, Command::SaveToFile)
        + when(plain && k.key_n, Command::NewNote)
        + when(plain && k.key_o, Command::OpenFile)
        + when(plain && k.key_b, Command::Action(EditorAction::Wrap { prefix: "**", suffix: "**" }))
        + when(plain && k.key_i, Command::Action(EditorAction::Wrap { prefix: "*", suffix: "*" }))
        + when(plain && k.key_k, Command::Action(EditorAction::Insert("[リンクテキスト](https://)")))
        + when(plain && k.key_e, Command::Action(EditorAction::Wrap { prefix: "`", suffix: "`" }))
        + when(chord && k.key_q, Command::Action(EditorAction::LinePrefix("> ")))
        + when(chord && k.key_l, Command::Action(EditorAction::LinePrefix("- ")))
        + when(chord && k.key_t, Command::Action(EditorAction::LinePrefix("- [ ] ")))
        + when(plain && k.key_f, Command::OpenFind)
        + when(plain && k.key_h, Command::OpenReplace)
        + when(k.escape && find_open, Command::CloseFind)
        + when(k.alt && k.arrow_up, Command::MoveLines(true))
        + when(k.alt && k.arrow_down, Command::MoveLines(false))
        + when(k.paste, Command::PasteImage(false))
        + when(chord && k.key_v, Command::PasteImage(true))
        + when(plain && k.key_p, Command::OpenSwitcher)
        + when(k.escape && switcher_open, Command::CloseSwitcher)
        + when(k.ctrl && k.key_backslash, Command::CycleView)
}

fn push_when(v: &mut Vec<Command>, b: bool, c: Command)
    ensures
        final(v)@ == old(v)@ + when(b, c),
{
    if b {
        v.push(c);
    }
    assert(final(v)@ =~= old(v)@ + when(b, c));
}

/// The commands that the keys of one frame ask for (see `commands_spec`); `find_visible`
/// and `switcher_visible` tell whether the find bar and the quick switcher are open.
pub fn shortcut_commands(k: KeyState, find_visible: bool, switcher_visible: bool) -> (r: Vec<Command>)
    ensures
        r@ == commands_spec(k, find_visible, switcher_visible),
{
    let plain = k.ctrl && !k.shift;
    let chord = k.ctrl && k.shift;
    let find_open = find_visible || (plain && k.key_f) || (plain && k.key_h);
    let switcher_open = switcher_visible || (plain && k.key_p);
    let mut v: Vec<Command> = Vec::new();
    push_when(&mut v, plain && k.key_s, Command::SaveToFile);
    push_when(&mut v, plain && k.key_n, Command::NewNote);
    push_when(&mut v, plain && k.key_o, Command::OpenFile);
    push_when(&mut v, plain && k.key_b, Command::Action(EditorAction::Wrap { prefix: "**", suffix: "**" }));
    push_when(&mut v, plain && k.key_i, Command::Action(EditorAction::Wrap { prefix: "*", suffix: "*" }));
    push_when(&mut v, plain && k.key_k, Command::Action(EditorAction::Insert("[リンクテキスト](https://)")));
    push_when(&mut v, plain && k.key_e, Command::Action(EditorAction::Wrap { prefix: "`", suffix: "`" }));
    push_when(&mut v, chord && k.key_q, Command::Action(EditorAction::LinePrefix("> ")));
    push_when(&mut v, chord && k.key_l, Command::Action(EditorAction::LinePrefix("- ")));
    push_when(&mut v, chord && k.key_t, Command::Action(EditorAction::LinePrefix("- [ ] ")));
    push_when(&mut v, plain && k.key_f, Command::OpenFind);
    push_when(&mut v, plain && k.key_h, Command::OpenReplace);
    push_when(&mut v, k.escape && find_open, Command::CloseFind);
    push_when(&mut v, k.alt && k.arrow_up, Command::MoveLines(true));
    push_when(&mut v, k.alt && k.arrow_down, Command::MoveLines(false));
    push_when(&mut v, k.paste, Command::PasteImage(false));
    push_when(&mut v, chord && k.key_v, Command::PasteImage(true));
    push_when(&mut v, plain && k.key_p, Command::OpenSwitcher);
    push_when(&mut v, k.escape && switcher_open, Command::CloseSwitcher);
    push_when(&mut v, k.ctrl && k.key_backslash, Command::CycleView);
    assert(v@ =~= commands_spec(k, find_visible, switcher_visible));
    v
}

// ---------------------------------------------------------------------------
// Status bar and saving
// ---------------------------------------------------------------------------

/// Seconds between automatic saves of the notes.
pub const AUTOSAVE_INTERVAL_SECS: u64 = 3;

/// Seconds a transient status message stays.
pub const STATUS_MESSAGE_SECS: u64 = 6;

/// The notes are saved now: saving is automatic, something changed, and the last save
/// is at least `AUTOSAVE_INTERVAL_SECS` old.
pub fn should_auto_save(auto_save: bool, dirty: bool, secs_since_save: u64) -> (b: bool)
    ensures
        b == (auto_save && dirty && secs_since_save >= AUTOSAVE_INTERVAL_SECS),
{
    auto_save && dirty && secs_since_save >= AUTOSAVE_INTERVAL_SECS
}

/// A transient status message shown `secs_shown` seconds ago is cleared.
pub fn status_message_expired(secs_shown: u64) -> (b: bool)
    ensures
        b == (secs_shown >= STATUS_MESSAGE_SECS),
{
    secs_shown >= STATUS_MESSAGE_SECS
}

/// What the status bar says: the transient message if there is one, otherwise whether
/// changes are pending (and saved automatically) or everything is saved.
pub open spec fn status_spec(message: Option<Seq<char>>, dirty: bool, auto_save: bool) -> Seq<char> {
    match message {
        Some(m) => m,
        None => if dirty {
            if auto_save {
                "● 自動保存中…"@
            } else {
                "● 未保存の変更"@
            }
        } else {
            "✓ 保存済み"@
        },
    }
}

/// The text of the status bar (see `status_spec`).
pub fn status_text(message: &Option<String>, dirty: bool, auto_save: bool) -> (r: String)
    ensures
        r@ == status_spec(
            match message {
                Some(m) => Some(m@),
                None => None,
            },
            dirty,
            auto_save,
        ),
{
    match message {
        Some(m) => m.clone(),
        None => if dirty {
            if auto_save {
                "● 自動保存中…".to_owned()
            } else {
                "● 未保存の変更".to_owned()
            }
        } else {
            "✓ 保存済み".to_owned()
        },
    }
}

} // verus!
