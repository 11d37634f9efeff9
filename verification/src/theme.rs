//! Colour themes for the prompt: which palette colours the prompt text,
//! the input, the suggestion panel and the hint line use.

use vstd::prelude::*;

use crate::color::ColorRef;

verus! {

/// The colours of one prompt session's user interface.
#[derive(Clone)]
pub struct ColorTheme {
    pub prompt_color: ColorRef,
    pub input_color: ColorRef,
    pub suggestion_color: ColorRef,
    pub selected_suggestion_color: ColorThemeSelectedSuggestion,
    pub hint_color: ColorRef,
}

/// Foreground and background of the highlighted suggestion row.
#[derive(Clone)]
pub struct ColorThemeSelectedSuggestion {
    pub fg: ColorRef,
    pub bg: ColorRef,
}

/// Whether a reference names `name` in the `default` namespace.
pub open spec fn names_default(c: ColorRef, name: Seq<char>) -> bool {
    c matches ColorRef::Named(ns, n) && ns@ == "default"@ && n@ == name
}

fn named_default(name: &str) -> (r: ColorRef)
    ensures
        names_default(r, name@),
{
    ColorRef::Named("default".to_owned(), name.to_owned())
}

impl ColorTheme {
    /// The standard theme: cyan prompt, white text, yellow-on-dark-gray
    /// highlight, gray hint.
    pub fn default() -> (r: Self)
        ensures
            names_default(r.prompt_color, "cyan"@),
            names_default(r.input_color, "white"@),
            names_default(r.suggestion_color, "white"@),
            names_default(r.selected_suggestion_color.fg, "yellow"@),
            names_default(r.selected_suggestion_color.bg, "dark_gray"@),
            names_default(r.hint_color, "gray"@),
    {
        ColorTheme {
            prompt_color: named_default("cyan"),
            input_color: named_default("white"),
            suggestion_color: named_default("white"),
            selected_suggestion_color: ColorThemeSelectedSuggestion {
                fg: named_default("yellow"),
                bg: named_default("dark_gray"),
            },
            hint_color: named_default("gray"),
        }
    }

    /// A muted theme for dark terminals.
    pub fn dark() -> (r: Self)
        ensures
            names_default(r.prompt_color, "light_cyan"@),
            names_default(r.input_color, "light_gray"@),
            names_default(r.suggestion_color, "light_gray"@),
            names_default(r.selected_suggestion_color.fg, "light_yellow"@),
            names_default(r.selected_suggestion_color.bg, "dark_gray"@),
            names_default(r.hint_color, "gray"@),
    {
        ColorTheme {
            prompt_color: named_default("light_cyan"),
            input_color: named_default("light_gray"),
            suggestion_color: named_default("light_gray"),
            selected_suggestion_color: ColorThemeSelectedSuggestion {
                fg: named_default("light_yellow"),
                bg: named_default("dark_gray"),
            },
            hint_color: named_default("gray"),
        }
    }

    /// A saturated magenta theme.
    pub fn vibrant() -> (r: Self)
        ensures
            names_default(r.prompt_color, "magenta"@),
            names_default(r.input_color, "white"@),
            names_default(r.suggestion_color, "white"@),
            names_default(r.selected_suggestion_color.fg, "light_magenta"@),
            names_default(r.selected_suggestion_color.bg, "dark_magenta"@),
            names_default(r.hint_color, "light_gray"@),
    {
        ColorTheme {
            prompt_color: named_default("magenta"),
            input_color: named_default("white"),
            suggestion_color: named_default("white"),
            selected_suggestion_color: ColorThemeSelectedSuggestion {
                fg: named_default("light_magenta"),
                bg: named_default("dark_magenta"),
            },
            hint_color: named_default("light_gray"),
        }
    }
}

} // verus!
