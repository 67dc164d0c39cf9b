use mgi_pulse::engine::record::severity;
use mgi_pulse::theme::{resolve, Color, Theme};

#[test]
fn parse_known_names() {
    assert_eq!(Theme::parse("dark"), Some(Theme::Dark));
    assert_eq!(Theme::parse("light"), Some(Theme::Light));
    assert_eq!(Theme::parse("nocolor"), Some(Theme::NoColor));
    assert_eq!(Theme::parse("mono"), Some(Theme::NoColor));
    assert_eq!(Theme::parse("blue"), None);
}

#[test]
fn severity_style_distinguishes_levels() {
    let dark = Theme::Dark;
    assert_ne!(
        dark.severity_style(severity::ERROR),
        dark.severity_style(severity::INFO)
    );
}

#[test]
fn nocolor_uses_modifiers_not_colours() {
    let nc = Theme::NoColor;
    let error_style = nc.severity_style(severity::ERROR);
    assert_eq!(error_style.fg, None);
    assert!(error_style.add_modifier.bold);
}

#[test]
fn no_color_env_forces_nocolor() {
    assert_eq!(
        Theme::env_override(Some("1"), None, true),
        Some(Theme::NoColor)
    );
}

#[test]
fn no_color_empty_value_still_triggers() {
    assert_eq!(
        Theme::env_override(Some(""), None, true),
        Some(Theme::NoColor)
    );
}

#[test]
fn term_dumb_forces_nocolor() {
    assert_eq!(
        Theme::env_override(None, Some("dumb"), true),
        Some(Theme::NoColor)
    );
}

#[test]
fn non_tty_stdout_forces_nocolor() {
    assert_eq!(
        Theme::env_override(None, Some("xterm-256color"), false),
        Some(Theme::NoColor)
    );
}

#[test]
fn normal_tty_no_override() {
    assert_eq!(Theme::env_override(None, Some("xterm-256color"), true), None);
}

#[test]
fn default_theme_is_dark() {
    assert_eq!(Theme::default(), Theme::Dark);
    assert_eq!(Theme::from_env_or_default(None), Theme::Dark);
    assert_eq!(Theme::from_env_or_default(Some("neon")), Theme::Dark);
    assert_eq!(Theme::from_env_or_default(Some("light")), Theme::Light);
}

#[test]
fn flag_wins_over_variable_and_loses_to_environment() {
    let term = Some("xterm");
    assert_eq!(
        resolve(Some("dark"), Some("light"), None, term, true),
        Some(Theme::Dark)
    );
    assert_eq!(
        resolve(None, Some("light"), None, term, true),
        Some(Theme::Light)
    );
    assert_eq!(
        resolve(Some("dark"), Some("light"), Some(""), term, true),
        Some(Theme::NoColor)
    );
    assert_eq!(resolve(Some("neon"), None, Some("1"), term, false), None);
}

#[test]
fn styles_of_each_theme() {
    let tab = Theme::Dark.active_tab_style();
    assert_eq!(tab.fg, Some(Color::Yellow));
    assert!(tab.add_modifier.bold && tab.add_modifier.underlined);
    assert_eq!(Theme::Light.active_tab_style().fg, Some(Color::Blue));
    assert!(Theme::NoColor.active_tab_style().add_modifier.reversed);
    assert_eq!(Theme::Light.inactive_tab_style().fg, Some(Color::Gray));
    assert_eq!(Theme::Dark.cursor_row_style().bg, Some(Color::DarkGray));
    assert_eq!(Theme::Light.cursor_row_style().fg, Some(Color::Black));
    assert_eq!(Theme::Dark.hint_bright().fg, Some(Color::White));
    assert!(Theme::NoColor.hint_dim().add_modifier.dim);
    assert_eq!(
        Theme::Dark.histogram_bar(severity::INFO).fg,
        Some(Color::Green)
    );
    assert_eq!(Theme::NoColor.histogram_bar(severity::INFO).fg, None);
    assert_eq!(
        Theme::Light.severity_style(severity::TRACE).fg,
        Some(Color::Gray)
    );
}
