use justgui::theme::{color_to_hex, is_dark_mode, parse_color, theme_color_field, theme_field, user_config_root, Color, ConfigRoot, ThemeField};

fn rgba(red: u8, green: u8, blue: u8, alpha: u8) -> Color {
    Color { red, green, blue, alpha }
}

#[test]
fn parses_rgb_and_rgba() {
    assert_eq!(parse_color("#1e1e1e"), rgba(0x1e, 0x1e, 0x1e, 255));
    assert_eq!(parse_color("7ec8ff80"), rgba(0x7e, 0xc8, 0xff, 0x80));
    assert_eq!(parse_color("  ##ABCDEF  "), rgba(0xab, 0xcd, 0xef, 255));
}

#[test]
fn malformed_colors_are_magenta() {
    assert_eq!(parse_color("#12345"), rgba(255, 0, 255, 255));
    assert_eq!(parse_color(""), rgba(255, 0, 255, 255));
    assert_eq!(parse_color("#12345é"), rgba(255, 0, 255, 255));
}

#[test]
fn anything_but_six_or_eight_hex_digits_is_magenta() {
    assert_eq!(parse_color("#zzzzzz"), rgba(255, 0, 255, 255));
    assert_eq!(parse_color("#zz1122"), rgba(255, 0, 255, 255));
    assert_eq!(parse_color("#+f1122"), rgba(255, 0, 255, 255));
    assert_eq!(parse_color("#1234567"), rgba(255, 0, 255, 255));
    assert_eq!(parse_color("#112233445"), rgba(255, 0, 255, 255));
    assert_eq!(parse_color("#11 2233"), rgba(255, 0, 255, 255));
}

#[test]
fn hex_is_lower_case_with_alpha_unless_opaque() {
    assert_eq!(color_to_hex(&rgba(0x7e, 0xc8, 0xff, 0x10)), "#7ec8ff10");
    assert_eq!(color_to_hex(&rgba(0, 10, 255, 255)), "#000aff");
    assert_eq!(color_to_hex(&rgba(0xab, 0xcd, 0xef, 0)), "#abcdef00");
}

#[test]
fn color_round_trips_exactly() {
    for c in [rgba(1, 2, 3, 4), rgba(1, 2, 3, 255), rgba(255, 255, 255, 0)] {
        assert_eq!(parse_color(&color_to_hex(&c)), c);
    }
}

#[test]
fn lower_case_hex_text_round_trips() {
    for s in ["#11223344", "#1e1e1e", "#7ec8ff80", "#000000fe"] {
        assert_eq!(color_to_hex(&parse_color(s)), s);
    }
    assert_eq!(color_to_hex(&parse_color("#112233ff")), "#112233");
}

#[test]
fn theme_field_names() {
    assert_eq!(theme_field("panel-background"), Some(ThemeField::PanelBackground));
    assert_eq!(theme_field("font-size"), Some(ThemeField::FontSize));
    assert_eq!(theme_field("Background"), None);
    assert_eq!(theme_color_field("muted-text"), Some(ThemeField::MutedText));
    assert_eq!(theme_color_field("mode"), None);
    assert_eq!(theme_color_field("nope"), None);
}

#[test]
fn dark_mode_ignores_ascii_case() {
    assert!(is_dark_mode("dark"));
    assert!(is_dark_mode("DaRk"));
    assert!(!is_dark_mode("light"));
    assert!(!is_dark_mode("dark "));
}

#[test]
fn user_config_root_prefers_non_blank_xdg_then_appdata_then_home() {
    assert_eq!(user_config_root(Some("/x"), Some("/a"), Some("/h")), Some(ConfigRoot::XdgConfigHome));
    assert_eq!(user_config_root(Some("  "), Some("/a"), Some("/h")), Some(ConfigRoot::AppData));
    assert_eq!(user_config_root(None, None, Some("/h")), Some(ConfigRoot::Home));
    assert_eq!(user_config_root(Some(""), None, Some("/h")), Some(ConfigRoot::Home));
    assert_eq!(user_config_root(Some("\t"), None, None), None);
}
