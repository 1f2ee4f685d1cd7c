//! User-facing choices: editor font, colour theme and pane layout.
use vstd::prelude::*;

verus! {

/// The Japanese font the editor loads.
#[derive(Clone, Copy, Debug, PartialEq, Eq, Structural)]
pub enum FontChoice {
    YuGothic,
    Meiryo,
    MsGothic,
    BizUdGothic,
}

impl Default for FontChoice {
    fn default() -> (r: Self)
        ensures
            r == FontChoice::YuGothic,
    {
        FontChoice::YuGothic
    }
}

/// The name of a font as the settings window shows it.
pub open spec fn font_display_name(f: FontChoice) -> Seq<char> {
    match f {
        FontChoice::YuGothic => "游ゴシック"@,
        FontChoice::Meiryo => "メイリオ"@,
        FontChoice::MsGothic => "MS ゴシック"@,
        FontChoice::BizUdGothic => "BIZ UDP ゴシック"@,
    }
}

/// The font files tried for a font, in order.
pub open spec fn font_files(f: FontChoice) -> Seq<Seq<char>> {
    match f {
        FontChoice::YuGothic => seq![
            "C:\\Windows\\Fonts\\YuGothM.ttc"@,
            "C:\\Windows\\Fonts\\YuGothR.ttc"@,
        ],
        FontChoice::Meiryo => seq![
            "C:\\Windows\\Fonts\\meiryo.ttc"@,
            "C:\\Windows\\Fonts\\MeiryoUI.ttc"@,
        ],
        FontChoice::MsGothic => seq!["C:\\Windows\\Fonts\\msgothic.ttc"@],
        FontChoice::BizUdGothic => seq!["C:\\Windows\\Fonts\\BIZ-UDGothicR.ttc"@],
    }
}

/// Views of a list of string slices.
pub open spec fn strs_view(v: Seq<&str>) -> Seq<Seq<char>> {
    v.map_values(|s: &str| s@)
}

impl FontChoice {
    pub fn display_name(self) -> (r: &'static str)
        ensures
            r@ == font_display_name(self),
    {
        match self {
            FontChoice::YuGothic => "游ゴシック",
            FontChoice::Meiryo => "メイリオ",
            FontChoice::MsGothic => "MS ゴシック",
            FontChoice::BizUdGothic => "BIZ UDP ゴシック",
        }
    }

    /// The font files to try for this font, in order of preference.
    pub fn font_candidates(self) -> (r: Vec<&'static str>)
        ensures
            strs_view(r@) == font_files(self),
    {
        let mut r: Vec<&'static str> = Vec::new();
        match self {
            FontChoice::YuGothic => {
                r.push("C:\\Windows\\Fonts\\YuGothM.ttc");
                r.push("C:\\Windows\\Fonts\\YuGothR.ttc");
            },
            FontChoice::Meiryo => {
                r.push("C:\\Windows\\Fonts\\meiryo.ttc");
                r.push("C:\\Windows\\Fonts\\MeiryoUI.ttc");
            },
            FontChoice::MsGothic => {
                r.push("C:\\Windows\\Fonts\\msgothic.ttc");
            },
            FontChoice::BizUdGothic => {
                r.push("C:\\Windows\\Fonts\\BIZ-UDGothicR.ttc");
            },
        }
        assert(strs_view(r@) =~= font_files(self));
        r
    }

    /// Every font, in the order the settings window lists them.
    pub fn all() -> (r: Vec<FontChoice>)
        ensures
            r@ == seq![
                FontChoice::YuGothic,
                FontChoice::Meiryo,
                FontChoice::MsGothic,
                FontChoice::BizUdGothic,
            ],
    {
        let mut r: Vec<FontChoice> = Vec::new();
        r.push(FontChoice::YuGothic);
        r.push(FontChoice::Meiryo);
        r.push(FontChoice::MsGothic);
        r.push(FontChoice::BizUdGothic);
        assert(r@ =~= seq![
            FontChoice::YuGothic,
            FontChoice::Meiryo,
            FontChoice::MsGothic,
            FontChoice::BizUdGothic,
        ]);
        r
    }
}

/// Colour theme.
#[derive(Clone, Copy, Debug, PartialEq, Eq, Structural)]
pub enum ThemeMode {
    Dark,
    Light,
}

impl Default for ThemeMode {
    fn default() -> (r: Self)
        ensures
            r == ThemeMode::Dark,
    {
        ThemeMode::Dark
    }
}

/// Which panes the main area shows.
#[derive(Clone, Copy, Debug, PartialEq, Eq, Structural)]
pub enum ViewMode {
    EditorOnly,
    Split,
    PreviewOnly,
}

impl Default for ViewMode {
    fn default() -> (r: Self)
        ensures
            r == ViewMode::Split,
    {
        ViewMode::Split
    }
}

/// The layout that follows `m` when cycling: editor only, split, preview only, and back.
pub open spec fn next_view_spec(m: ViewMode) -> ViewMode {
    match m {
        ViewMode::EditorOnly => ViewMode::Split,
        ViewMode::Split => ViewMode::PreviewOnly,
        ViewMode::PreviewOnly => ViewMode::EditorOnly,
    }
}

impl ViewMode {
    /// The layout that the cycling shortcut switches to.
    pub fn next(self) -> (r: ViewMode)
        ensures
            r == next_view_spec(self),
    {
        match self {
            ViewMode::EditorOnly => ViewMode::Split,
            ViewMode::Split => ViewMode::PreviewOnly,
            ViewMode::PreviewOnly => ViewMode::EditorOnly,
        }
    }
}

/// Cycling the layout three times comes back to where it started, passing through every
/// layout on the way.
pub proof fn lemma_view_cycle(m: ViewMode)
    ensures
        next_view_spec(next_view_spec(next_view_spec(m))) == m,
        next_view_spec(m) != m,
        next_view_spec(next_view_spec(m)) != m,
{
}

} // verus!
