use termprompt::color::{
    add_color, change_color, colored_text, default_palette, is_valid_identifier, remove_color,
    resolve_color_ref, strip_ansi_codes, visible_length, Color, ColorPalette, ColorRef,
};

fn named(ns: &str, name: &str) -> ColorRef {
    ColorRef::Named(ns.to_string(), name.to_string())
}

#[test]
fn from_hex_parses_six_digit_colors() {
    let c = Color::from_hex("#ff0055");
    assert_eq!((c.r, c.g, c.b), (255, 0, 85));
    let c = Color::from_hex("1e90ff");
    assert_eq!((c.r, c.g, c.b), (30, 144, 255));
}

#[test]
fn from_hex_doubles_three_digit_shorthand() {
    let c = Color::from_hex("#abc");
    assert_eq!((c.r, c.g, c.b), (170, 187, 204));
}

#[test]
fn from_hex_falls_back_to_black_or_zero() {
    let c = Color::from_hex("#12345");
    assert_eq!((c.r, c.g, c.b), (0, 0, 0));
    let c = Color::from_hex("");
    assert_eq!((c.r, c.g, c.b), (0, 0, 0));
    // An unparsable component becomes zero, the others still parse.
    let c = Color::from_hex("#zz00ff");
    assert_eq!((c.r, c.g, c.b), (0, 0, 255));
}

#[test]
fn identifier_validation() {
    assert!(is_valid_identifier("dark_gray"));
    assert!(!is_valid_identifier(""));
    assert!(!is_valid_identifier("Dark"));
    assert!(!is_valid_identifier("a-b"));
}

#[test]
fn default_palette_resolves_builtin_colors() {
    let palette = default_palette();
    assert_eq!(
        resolve_color_ref(&palette, &named("default", "red")),
        Some(Color { r: 255, g: 0, b: 0 })
    );
    assert_eq!(
        resolve_color_ref(&palette, &named("default", "dark_gray")),
        Some(Color { r: 64, g: 64, b: 64 })
    );
    assert_eq!(resolve_color_ref(&palette, &named("default", "nope")), None);
    assert_eq!(resolve_color_ref(&palette, &named("custom", "red")), None);
    assert_eq!(resolve_color_ref(&palette, &named("BAD", "red")), None);
    let direct = ColorRef::Direct(Color { r: 1, g: 2, b: 3 });
    assert_eq!(
        resolve_color_ref(&palette, &direct),
        Some(Color { r: 1, g: 2, b: 3 })
    );
}

#[test]
fn add_color_rejects_default_namespace_and_bad_names() {
    let mut palette = default_palette();
    assert_eq!(
        add_color(&mut palette, "default", "x", Color { r: 0, g: 0, b: 0 }),
        Err("cannot modify default or pastel namespace".to_string())
    );
    assert_eq!(
        add_color(&mut palette, "Bad", "x", Color { r: 0, g: 0, b: 0 }),
        Err("namespace must be lowercase and contain only [a-z_]".to_string())
    );
    assert_eq!(
        add_color(&mut palette, "ok", "X", Color { r: 0, g: 0, b: 0 }),
        Err("name must be lowercase and contain only [a-z_]".to_string())
    );
}

#[test]
fn add_change_remove_color_round_trip() {
    let mut palette = ColorPalette { spaces: vec![] };
    let red = Color { r: 255, g: 0, b: 85 };
    assert_eq!(add_color(&mut palette, "custom", "my_red", red), Ok(()));
    assert_eq!(
        resolve_color_ref(&palette, &named("custom", "my_red")),
        Some(red)
    );

    let darker = Color { r: 128, g: 0, b: 40 };
    assert_eq!(change_color(&mut palette, "custom", "my_red", darker), Ok(()));
    assert_eq!(
        resolve_color_ref(&palette, &named("custom", "my_red")),
        Some(darker)
    );
    assert_eq!(
        change_color(&mut palette, "custom", "other", darker),
        Err("color does not exist in namespace".to_string())
    );
    assert_eq!(
        change_color(&mut palette, "missing", "other", darker),
        Err("namespace does not exist".to_string())
    );

    assert_eq!(
        remove_color(&mut palette, "custom", "other"),
        Err("color does not exist in namespace".to_string())
    );
    assert_eq!(remove_color(&mut palette, "custom", "my_red"), Ok(()));
    // The namespace emptied out, so it is gone as well.
    assert_eq!(
        remove_color(&mut palette, "custom", "my_red"),
        Err("namespace does not exist".to_string())
    );
}

#[test]
fn colored_text_wraps_in_truecolor_escape() {
    let palette = default_palette();
    let out = colored_text(&palette, "hi", &ColorRef::Direct(Color { r: 255, g: 0, b: 85 }));
    assert_eq!(out, Ok("\u{1b}[38;2;255;0;85mhi\u{1b}[0m".to_string()));
    let bad = colored_text(&palette, "hi", &named("custom", "nope"));
    assert_eq!(bad, Err("could not resolve color reference".to_string()));
}

#[test]
fn strip_ansi_codes_removes_exactly_the_escapes() {
    let s = "\u{1b}[38;2;1;2;3mhello\u{1b}[0m world";
    assert_eq!(strip_ansi_codes(s), "hello world");
    assert_eq!(strip_ansi_codes("plain"), "plain");
    // An unterminated escape is not a match and stays.
    assert_eq!(strip_ansi_codes("\u{1b}[38;2"), "\u{1b}[38;2");
}

#[test]
fn visible_length_counts_grapheme_clusters_after_stripping() {
    let palette = default_palette();
    let colored = colored_text(&palette, "hello", &named("default", "cyan")).unwrap();
    assert_eq!(visible_length(&colored), 5);
    // A combining accent joins its base letter into one cluster.
    assert_eq!(visible_length("e\u{301}x"), 2);
    assert_eq!(visible_length(""), 0);
}

#[test]
fn progress_bar_advances_and_clamps() {
    let mut bar = termprompt::progress::ProgressBar::new(10)
        .with_width(20)
        .with_symbol('#');
    bar.advance(4);
    assert_eq!(bar.current, 4);
    bar.advance(9);
    assert_eq!(bar.current, 10);
    assert_eq!(bar.total, 10);
    assert_eq!(bar.width, 20);
    assert_eq!(bar.symbol, '#');
}

#[test]
fn themes_name_their_palette_colors() {
    let t = termprompt::theme::ColorTheme::default();
    match &t.prompt_color {
        ColorRef::Named(ns, name) => {
            assert_eq!(ns, "default");
            assert_eq!(name, "cyan");
        },
        _ => panic!("expected a named colour"),
    }
    let d = termprompt::theme::ColorTheme::dark();
    match &d.selected_suggestion_color.bg {
        ColorRef::Named(_, name) => assert_eq!(name, "dark_gray"),
        _ => panic!("expected a named colour"),
    }
    let v = termprompt::theme::ColorTheme::vibrant();
    match &v.hint_color {
        ColorRef::Named(_, name) => assert_eq!(name, "light_gray"),
        _ => panic!("expected a named colour"),
    }
}
