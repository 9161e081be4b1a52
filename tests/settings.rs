use styled_log::{
    customize_borders, customize_colors, customize_symbols, debug_enabled, get_borders, get_colors,
    get_symbols, get_text_styling, make_log, render_line, set_debug, strip_ansi_codes,
    text_styling_off, text_styling_on, Borders, Colors, Settings, Symbols,
};

#[test]
fn default_tables() {
    let c = Colors::default();
    assert_eq!(c.info, "\x1b[96m");
    assert_eq!(c.warn_text, "\x1b[33m");
    assert_eq!(c.reset, "\x1b[0m");
    let s = Symbols::default();
    assert_eq!(s.info, "ℹ");
    assert_eq!(s.error, "✖");
    assert_eq!(s.separator, "│");
    let b = Borders::default();
    assert_eq!(b.top_left, "╭");
    assert_eq!(b.horizontal, "─");
}

#[test]
fn first_read_fixes_defaults() {
    let mut settings = Settings::new();
    assert_eq!(get_colors(&mut settings).info, "\x1b[96m");
    customize_colors(&mut settings, Colors { info: "\x1b[1m", ..Colors::default() });
    assert_eq!(get_colors(&mut settings).info, "\x1b[96m");
}

#[test]
fn customize_before_read_applies() {
    let mut settings = Settings::new();
    customize_colors(&mut settings, Colors { warn_text: "\x1b[38;2;0;255;0m", ..Colors::default() });
    customize_colors(&mut settings, Colors::default());
    assert_eq!(get_colors(&mut settings).warn_text, "\x1b[38;2;0;255;0m");
    customize_symbols(&mut settings, Symbols { debug: "⟐", ..Symbols::default() });
    assert_eq!(get_symbols(&mut settings).debug, "⟐");
    customize_borders(&mut settings, Borders { top_left: "+", ..Borders::default() });
    assert_eq!(get_borders(&mut settings).top_left, "+");
}

#[test]
fn styling_switch_first_write_wins() {
    let mut settings = Settings::new();
    text_styling_off(&mut settings);
    text_styling_on(&mut settings);
    assert!(!get_text_styling(&mut settings));
    let mut fresh = Settings::new();
    assert!(get_text_styling(&mut fresh));
    text_styling_off(&mut fresh);
    assert!(get_text_styling(&mut fresh));
}

#[test]
fn debug_switch() {
    let mut settings = Settings::new();
    assert!(debug_enabled(&settings));
    set_debug(&mut settings, false);
    set_debug(&mut settings, true);
    assert!(!debug_enabled(&settings));
}

#[test]
fn one_line_message_text() {
    let colors = Colors { dim: "d", bold: "b", reset: "r", ..Colors::default() };
    let symbols = Symbols { separator: "|", ..Symbols::default() };
    let line = render_line(&colors, &symbols, false, "C", "S", "Title", "T", "**hi**", "12:00:00.000");
    assert_eq!(line, "CS r d12:00:00.000rd | rbCTitler Thir");
}

#[test]
fn one_line_message_now() {
    let mut settings = Settings::new();
    let colors = Colors::default();
    let line = make_log(&mut settings, colors.info, "ℹ", "Server", colors.info_text, "Starting");
    let plain = strip_ansi_codes(&line);
    assert!(plain.starts_with("ℹ  "));
    assert!(plain.ends_with(" │ Server Starting"));
    assert_eq!(plain.chars().count(), "ℹ  ".chars().count() + 12 + " │ Server Starting".chars().count());
}
