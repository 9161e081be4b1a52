use styled_log::{
    create_styled_box, render_box, strip_ansi_codes, BoxStyle, Borders, Colors, Settings,
};

fn default_style<'a>(box_color: &'a str, text_color: &'a str, styling: bool) -> BoxStyle<'a> {
    BoxStyle {
        box_color,
        text_color,
        colors: Colors::default(),
        borders: Borders::default(),
        styling,
    }
}

fn plain_lines(boxed: &str) -> Vec<String> {
    let clean = strip_ansi_codes(boxed);
    let mut lines: Vec<String> = clean.split('\n').map(|l| l.to_string()).collect();
    assert_eq!(lines.pop(), Some(String::new()));
    lines
}

fn width_of(s: &str) -> usize {
    s.chars().count()
}

/// The text between "│ " and the closing "│" of a body row.
fn row_content(row: &str) -> String {
    let chars: Vec<char> = row.chars().collect();
    assert_eq!(chars[0], '│');
    assert_eq!(chars[1], ' ');
    assert_eq!(chars[chars.len() - 1], '│');
    chars[2..chars.len() - 1].iter().collect()
}

#[test]
fn box_of_width_seventy_five() {
    let colors = Colors::default();
    let st = default_style(colors.info, colors.info_text, true);
    let boxed = render_box(&st, "ℹ", "Server", "Starting", 75, "12:34:56");
    let lines = plain_lines(&boxed);
    assert_eq!(lines.len(), 3);
    assert_eq!(width_of(&lines[0]), 75);
    assert!(lines[0].starts_with("╭ ℹ Server─"));
    assert!(lines[0].ends_with("─⏳ 12:34:56╮"));
    let content = row_content(&lines[1]);
    assert_eq!(width_of(&content), 71);
    assert_eq!(content.trim_end(), "Starting");
    assert_eq!(lines[2], format!("╰ {}╯ ", "─".repeat(71)));
    assert_eq!(width_of(&lines[2]), 75);
}

#[test]
fn box_exact_text() {
    let st = BoxStyle {
        box_color: "B",
        text_color: "T",
        colors: Colors { bold: "!", dim: "~", reset: "R", ..Colors::default() },
        borders: Borders {
            top_left: "<",
            top_right: ">",
            bottom_left: "[",
            bottom_right: "]",
            horizontal: "-",
            vertical: "|",
        },
        styling: false,
    };
    let boxed = render_box(&st, "S", "Ti", "hi", 20, "00:00:00");
    let expected = String::new()
        + "B<! S TiB---~\u{23f3} 00:00:00RB>R\n"
        // The text color is no escape sequence here, so it survives the
        // stripping and is wrapped as text.
        + "B| TThiRRRB            |R\n"
        + "B[ ----------------] R\n";
    assert_eq!(boxed, expected);
}

#[test]
fn box_width_is_raised_to_minimum() {
    let colors = Colors::default();
    let st = default_style(colors.warn, colors.warn_text, true);
    let boxed = render_box(&st, "⚠", "Memory", "x", 0, "01:02:03");
    let lines = plain_lines(&boxed);
    // title 6 + stamp 10 + symbol 1 + 4
    assert_eq!(width_of(&lines[0]), 21);
    assert_eq!(width_of(&row_content(&lines[1])), 17);
    assert_eq!(width_of(&lines[2]), 21);
}

#[test]
fn long_word_is_cut_into_chunks() {
    let colors = Colors::default();
    let st = default_style(colors.info, colors.info_text, true);
    let word = "abcdefghijklmnopqrstuvwxyz0123";
    let boxed = render_box(&st, "S", "T", word, 16, "00:00:00");
    let lines = plain_lines(&boxed);
    assert_eq!(lines.len(), 5);
    let mut joined = String::new();
    for row in &lines[1..4] {
        let content = row_content(row);
        assert_eq!(width_of(&content), 12);
        let piece = content.trim_end();
        assert!(width_of(piece) <= 12);
        joined.push_str(piece);
    }
    assert_eq!(joined, word);
    assert_eq!(row_content(&lines[1]), "abcdefghijkl");
    assert_eq!(row_content(&lines[3]).trim_end(), "yz0123");
}

#[test]
fn words_wrap_greedily() {
    let colors = Colors::default();
    let st = default_style(colors.info, colors.info_text, true);
    let boxed = render_box(&st, "S", "T", "aa bbb cccc dddddddddddddddd e", 16, "00:00:00");
    let lines = plain_lines(&boxed);
    let rows: Vec<String> = lines[1..lines.len() - 1]
        .iter()
        .map(|r| row_content(r).trim_end().to_string())
        .collect();
    assert_eq!(rows, vec!["aa bbb cccc", "dddddddddddd", "dddd", "e"]);
}

#[test]
fn every_row_fills_the_inner_width() {
    let colors = Colors::default();
    let messages = [
        "Starting",
        "**Your _super secure super system_ is starting up.**",
        "Memory usage is at **85%**",
        "one\n\ntwo three four five six seven eight nine ten eleven twelve thirteen",
        "averyveryveryveryveryveryveryveryveryveryveryveryveryveryveryveryveryveryverylongword x",
        "",
    ];
    for width in [0usize, 21, 30, 75] {
        for m in messages {
            let st = default_style(colors.success, colors.success_text, true);
            let boxed = render_box(&st, "✔", "Login", m, width, "09:08:07");
            let lines = plain_lines(&boxed);
            let w = width_of(&lines[0]);
            assert_eq!(w, std::cmp::max(width, 5 + 10 + 1 + 4));
            for row in &lines[1..lines.len() - 1] {
                assert_eq!(width_of(&row_content(row)), w - 4);
            }
            assert_eq!(width_of(&lines[lines.len() - 1]), w);
        }
    }
}

#[test]
fn empty_paragraph_is_a_blank_row() {
    let colors = Colors::default();
    let st = default_style(colors.info, colors.info_text, true);
    let boxed = render_box(&st, "S", "T", "x\n\ny", 16, "00:00:00");
    let lines = plain_lines(&boxed);
    assert_eq!(lines.len(), 5);
    assert_eq!(row_content(&lines[1]).trim_end(), "x");
    assert_eq!(row_content(&lines[2]), " ".repeat(12));
    assert_eq!(row_content(&lines[3]).trim_end(), "y");
}

#[test]
fn blank_only_paragraph_has_no_rows() {
    let colors = Colors::default();
    let st = default_style(colors.info, colors.info_text, true);
    let boxed = render_box(&st, "S", "T", "   ", 16, "00:00:00");
    assert_eq!(plain_lines(&boxed).len(), 2);
}

#[test]
fn markup_is_removed_before_wrapping() {
    let colors = Colors::default();
    let on = render_box(&default_style(colors.info, colors.info_text, true), "S", "T",
        "**bold** and _under_", 30, "00:00:00");
    let off = render_box(&default_style(colors.info, colors.info_text, false), "S", "T",
        "**bold** and _under_", 30, "00:00:00");
    assert_eq!(plain_lines(&on), plain_lines(&off));
    assert_eq!(row_content(&plain_lines(&on)[1]).trim_end(), "bold and under");
}

#[test]
fn styled_box_uses_clock_and_settings() {
    let mut settings = Settings::new();
    let colors = Colors::default();
    let boxed = create_styled_box(&mut settings, colors.error, colors.error_text, "✖", "Database",
        "Database connection failed", 75);
    let lines = plain_lines(&boxed);
    assert_eq!(width_of(&lines[0]), 75);
    assert_eq!(row_content(&lines[1]).trim_end(), "Database connection failed");
    assert!(settings.colors.is_some());
    assert!(settings.borders.is_some());
    assert_eq!(settings.text_styling, Some(true));
}
