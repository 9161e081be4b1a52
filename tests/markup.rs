use styled_log::{rgb_to_ansi, rgb_to_ansi_bg, strip_ansi_codes, style_text};

const CYAN: &str = "\x1b[36m";
const RESET: &str = "\x1b[0m";

#[test]
fn rgb_codes_foreground() {
    assert_eq!(rgb_to_ansi(255, 0, 0), "\x1b[38;2;255;0;0m");
    assert_eq!(rgb_to_ansi(0, 0, 255), "\x1b[38;2;0;0;255m");
    assert_eq!(rgb_to_ansi(255, 255, 255), "\x1b[38;2;255;255;255m");
    assert_eq!(rgb_to_ansi(32, 80, 123), "\x1b[38;2;32;80;123m");
}

#[test]
fn rgb_codes_background() {
    assert_eq!(rgb_to_ansi_bg(255, 0, 0), "\x1b[48;2;255;0;0m");
    assert_eq!(rgb_to_ansi_bg(0, 0, 255), "\x1b[48;2;0;0;255m");
    assert_eq!(rgb_to_ansi_bg(7, 42, 0), "\x1b[48;2;7;42;0m");
}

#[test]
fn strip_removes_sequences() {
    assert_eq!(strip_ansi_codes("\x1b[1mhi\x1b[0m"), "hi");
    assert_eq!(strip_ansi_codes("\x1b[38;2;1;2;3mcolor\x1b[m!"), "color!");
    assert_eq!(strip_ansi_codes("plain text"), "plain text");
    assert_eq!(strip_ansi_codes(""), "");
}

#[test]
fn strip_keeps_incomplete_sequences() {
    assert_eq!(strip_ansi_codes("\x1b[12"), "\x1b[12");
    assert_eq!(strip_ansi_codes("\x1b[1x"), "\x1b[1x");
    assert_eq!(strip_ansi_codes("a\x1bb"), "a\x1bb");
}

#[test]
fn strip_twice_is_strip_once() {
    for s in ["\x1b[1mhi\x1b[0m", "a*b", "\x1b[12", "x\x1b[3;4my\x1b[0m", "\x1b[\x1b[0mm"] {
        let once = strip_ansi_codes(s);
        assert_eq!(strip_ansi_codes(&once), once);
    }
}

#[test]
fn strip_removes_joined_sequences() {
    // Removing an inner sequence joins the outer ESC with the text after it;
    // the sequence so formed is removed too.
    assert_eq!(strip_ansi_codes("\x1b[\x1b[0mm"), "");
    assert_eq!(strip_ansi_codes("a\x1b[\x1b[1mm"), "a");
    assert_eq!(strip_ansi_codes("\x1b\x1b[m[m"), "");
    assert_eq!(strip_ansi_codes("\x1b[\x1b[\x1b[0mmm!"), "!");
}

#[test]
fn style_bold_on() {
    assert_eq!(style_text("**bold**", "C", true, "R"), "CC\x1b[1mbold\x1b[22mR");
}

#[test]
fn style_each_marker_on() {
    assert_eq!(style_text("*i*", "C", true, "R"), "CC\x1b[3mi\x1b[23mR");
    assert_eq!(style_text("_u_", "C", true, "R"), "CC\x1b[4mu\x1b[24mR");
    assert_eq!(style_text("~s~", "C", true, "R"), "CC\x1b[9ms\x1b[29mR");
    assert_eq!(style_text("@d@", "C", true, "R"), "CC\x1b[2md\x1b[22mR");
}

#[test]
fn style_off_drops_markers() {
    assert_eq!(style_text("**bold text**", "C", false, "R"), "Cbold textR");
    assert_eq!(
        style_text("*Italic with **bold** and _underlined_ parts*", "", false, ""),
        "Italic with bold and underlined parts"
    );
    assert_eq!(
        style_text("**Bold _and underlined_ text**", "", false, ""),
        "Bold and underlined text"
    );
    assert_eq!(style_text("* **Connection _failed_***", "", false, ""), " Connection failed");
}

#[test]
fn style_unmatched_marker_stays() {
    assert_eq!(style_text("a*b", "C", true, "R"), "Ca*bR");
    assert_eq!(style_text("a_b", "", false, ""), "a_b");
    assert_eq!(style_text("x*y*z*w", "", false, ""), "xyz*w");
}

#[test]
fn style_double_marker_without_partner() {
    // "**" with no partner is left to the italic pass, which pairs its two stars.
    assert_eq!(style_text("**a", "", false, ""), "a");
    assert_eq!(style_text("**a", "C", true, "R"), "CC\x1b[3m\x1b[23maR");
}

#[test]
fn style_nested_on() {
    assert_eq!(
        style_text("**a *b* c**", "C", true, "R"),
        "CC\x1b[1ma C\x1b[3mb\x1b[23m c\x1b[22mR"
    );
}

#[test]
fn styling_switch_changes_only_codes() {
    let texts = [
        "**Bold *italic* _underlined_ ~strikethrough~ !blinking!**",
        "*_Items in queue:_* **42**",
        "User _Alice_ connected",
        "plain",
        "a*b",
        "@dim@ and ~gone~",
    ];
    for t in texts {
        let on = strip_ansi_codes(&style_text(t, CYAN, true, RESET));
        let off = strip_ansi_codes(&style_text(t, CYAN, false, RESET));
        assert_eq!(on, off);
    }
}
