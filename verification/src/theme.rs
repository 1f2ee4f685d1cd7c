//! The colour palettes of the dark and light themes.
use vstd::prelude::*;
use crate::settings::ThemeMode;

verus! {

/// An opaque colour.
#[derive(Clone, Copy, Debug, PartialEq, Eq, Structural)]
pub struct Rgb {
    pub r: u8,
    pub g: u8,
    pub b: u8,
}

/// The colours the window paints with.
#[derive(Clone, Copy, Debug)]
pub struct ThemeColors {
    pub sidebar_bg: Rgb,
    pub editor_bg: Rgb,
    pub preview_bg: Rgb,
    pub toolbar_bg: Rgb,
    pub header_bg: Rgb,
    pub selected_item_bg: Rgb,
    pub hover_item_bg: Rgb,
    pub accent: Rgb,
    pub text_dim: Rgb,
    pub text_normal: Rgb,
    pub text_strong: Rgb,
    pub line_number: Rgb,
    pub button_bg: Rgb,
    pub menu_bg: Rgb,
}

/// The dark palette.
pub open spec fn dark_palette() -> ThemeColors {
    ThemeColors {
        sidebar_bg: Rgb { r: 24, g: 26, b: 30 },
        editor_bg: Rgb { r: 30, g: 32, b: 38 },
        preview_bg: Rgb { r: 34, g: 36, b: 42 },
        toolbar_bg: Rgb { r: 32, g: 34, b: 40 },
        header_bg: Rgb { r: 26, g: 28, b: 34 },
        selected_item_bg: Rgb { r: 40, g: 160, b: 120 },
        hover_item_bg: Rgb { r: 42, g: 45, b: 54 },
        accent: Rgb { r: 45, g: 180, b: 140 },
        text_dim: Rgb { r: 120, g: 125, b: 140 },
        text_normal: Rgb { r: 200, g: 205, b: 215 },
        text_strong: Rgb { r: 255, g: 255, b: 255 },
        line_number: Rgb { r: 80, g: 85, b: 100 },
        button_bg: Rgb { r: 40, g: 42, b: 50 },
        menu_bg: Rgb { r: 20, g: 22, b: 26 },
    }
}

/// The light palette.
pub open spec fn light_palette() -> ThemeColors {
    ThemeColors {
        sidebar_bg: Rgb { r: 245, g: 246, b: 248 },
        editor_bg: Rgb { r: 255, g: 255, b: 255 },
        preview_bg: Rgb { r: 252, g: 252, b: 253 },
        toolbar_bg: Rgb { r: 240, g: 242, b: 245 },
        header_bg: Rgb { r: 238, g: 240, b: 243 },
        selected_item_bg: Rgb { r: 40, g: 160, b: 120 },
        hover_item_bg: Rgb { r: 225, g: 228, b: 232 },
        accent: Rgb { r: 35, g: 150, b: 110 },
        text_dim: Rgb { r: 120, g: 125, b: 140 },
        text_normal: Rgb { r: 40, g: 44, b: 52 },
        text_strong: Rgb { r: 20, g: 22, b: 28 },
        line_number: Rgb { r: 170, g: 175, b: 185 },
        button_bg: Rgb { r: 230, g: 232, b: 236 },
        menu_bg: Rgb { r: 235, g: 237, b: 240 },
    }
}

/// The palette of a theme.
pub fn colors(mode: ThemeMode) -> (c: ThemeColors)
    ensures
        c == (match mode {
            ThemeMode::Dark => dark_palette(),
            ThemeMode::Light => light_palette(),
        }),
{
    match mode {
        ThemeMode::Dark => ThemeColors {
            sidebar_bg: Rgb { r: 24, g: 26, b: 30 },
            editor_bg: Rgb { r: 30, g: 32, b: 38 },
            preview_bg: Rgb { r: 34, g: 36, b: 42 },
            toolbar_bg: Rgb { r: 32, g: 34, b: 40 },
            header_bg: Rgb { r: 26, g: 28, b: 34 },
            selected_item_bg: Rgb { r: 40, g: 160, b: 120 },
            hover_item_bg: Rgb { r: 42, g: 45, b: 54 },
            accent: Rgb { r: 45, g: 180, b: 140 },
            text_dim: Rgb { r: 120, g: 125, b: 140 },
            text_normal: Rgb { r: 200, g: 205, b: 215 },
            text_strong: Rgb { r: 255, g: 255, b: 255 },
            line_number: Rgb { r: 80, g: 85, b: 100 },
            button_bg: Rgb { r: 40, g: 42, b: 50 },
            menu_bg: Rgb { r: 20, g: 22, b: 26 },
        },
        ThemeMode::Light => ThemeColors {
            sidebar_bg: Rgb { r: 245, g: 246, b: 248 },
            editor_bg: Rgb { r: 255, g: 255, b: 255 },
            preview_bg: Rgb { r: 252, g: 252, b: 253 },
            toolbar_bg: Rgb { r: 240, g: 242, b: 245 },
            header_bg: Rgb { r: 238, g: 240, b: 243 },
            selected_item_bg: Rgb { r: 40, g: 160, b: 120 },
            hover_item_bg: Rgb { r: 225, g: 228, b: 232 },
            accent: Rgb { r: 35, g: 150, b: 110 },
            text_dim: Rgb { r: 120, g: 125, b: 140 },
            text_normal: Rgb { r: 40, g: 44, b: 52 },
            text_strong: Rgb { r: 20, g: 22, b: 28 },
            line_number: Rgb { r: 170, g: 175, b: 185 },
            button_bg: Rgb { r: 230, g: 232, b: 236 },
            menu_bg: Rgb { r: 235, g: 237, b: 240 },
        },
    }
}

/// The colour of widget borders in a theme.
pub fn border_color(mode: ThemeMode) -> (c: Rgb)
    ensures
        c == (match mode {
            ThemeMode::Dark => Rgb { r: 50, g: 53, b: 62 },
            ThemeMode::Light => Rgb { r: 215, g: 220, b: 226 },
        }),
{
    match mode {
        ThemeMode::Dark => Rgb { r: 50, g: 53, b: 62 },
        ThemeMode::Light => Rgb { r: 215, g: 220, b: 226 },
    }
}

/// The name of the syntect theme that highlights the editor in a theme.
pub open spec fn highlight_theme_name(mode: ThemeMode) -> Seq<char> {
    match mode {
        ThemeMode::Dark => "base16-mocha.dark"@,
        ThemeMode::Light => "InspiredGitHub"@,
    }
}

/// The syntect theme that highlights the editor in a theme.
pub fn highlight_theme(mode: ThemeMode) -> (name: &'static str)
    ensures
        name@ == highlight_theme_name(mode),
{
    match mode {
        ThemeMode::Dark => "base16-mocha.dark",
        ThemeMode::Light => "InspiredGitHub",
    }
}

} // verus!
