//! Decorated console messages: inline markup, bordered boxes, and
//! time-bucketed log files filtered by severity.
use vstd::prelude::*;

pub mod ansi;
pub mod clock;
pub mod layout;
pub mod logger;
pub mod markup;
pub mod settings;
pub mod styling;
pub mod text;

pub use ansi::strip_ansi_codes;
pub use clock::{LocalTime, format_clock, format_timestamp, get_timestamp};
pub use layout::{BoxStyle, render_box};
pub use logger::{LogEntry, LogInterval, LogLevel, Logger};
pub use markup::style_text;
pub use settings::{
    Settings, customize_borders, customize_colors, customize_symbols, debug_enabled, get_borders,
    get_colors, get_symbols, get_text_styling, set_debug, text_styling_off, text_styling_on,
};
pub use styling::{Borders, Colors, Symbols, rgb_to_ansi, rgb_to_ansi_bg};

use clock::{clock_text, local_now, timestamp_text};
use markup::styled;
use text::{push_str, string_of};
use layout::box_text;
use settings::{box_look_fixed, line_look_fixed};

verus! {

/// Draws a box with the configured palette, borders and styling switch
/// (fixing each of them if not yet fixed) and the current local time.
pub fn create_styled_box(
    settings: &mut Settings,
    box_color: &str,
    text_color: &str,
    symbol: &str,
    title: &str,
    message: &str,
    width: usize,
) -> (r: String)
    requires
        title@.len() + symbol@.len() + 14 <= usize::MAX,
    ensures
        box_look_fixed(*old(settings), *final(settings)),
        exists|t: LocalTime|
            t.wf() && r@ == box_text(
                (BoxStyle {
                    box_color,
                    text_color,
                    colors: final(settings).colors.unwrap(),
                    borders: final(settings).borders.unwrap(),
                    styling: final(settings).text_styling.unwrap(),
                }),
                symbol@,
                title@,
                message@,
                width as nat,
                clock_text(t),
            ),
{
    let colors = get_colors(settings);
    let borders = get_borders(settings);
    let styling = get_text_styling(settings);
    let now = local_now();
    let clock = format_clock(&now);
    proof {
        text::lemma_zero_padded_two(now.hour as nat);
        text::lemma_zero_padded_two(now.minute as nat);
        text::lemma_zero_padded_two(now.second as nat);
    }
    let st = BoxStyle { box_color, text_color, colors, borders, styling };
    render_box(&st, symbol, title, message, width, clock.as_str())
}


/// A one-line message: the symbol in `color`, the dim timestamp, a dim
/// separator, the bold title in `color`, then `body`.
pub open spec fn log_line(
    colors: Colors,
    symbols: Symbols,
    color: Seq<char>,
    symbol: Seq<char>,
    title: Seq<char>,
    timestamp: Seq<char>,
    body: Seq<char>,
) -> Seq<char> {
    color + symbol + seq![' '] + colors.reset@ + seq![' '] + colors.dim@ + timestamp + colors.reset@
        + colors.dim@ + seq![' '] + symbols.separator@ + seq![' '] + colors.reset@ + colors.bold@
        + color + title + colors.reset@ + seq![' '] + body
}

/// Formats a one-line message whose text is `message` with its markup
/// applied in `text_color`.
pub fn render_line(
    colors: &Colors,
    symbols: &Symbols,
    styling: bool,
    color: &str,
    symbol: &str,
    title: &str,
    text_color: &str,
    message: &str,
    timestamp: &str,
) -> (r: String)
    ensures
        r@ == log_line(*colors, *symbols, color@, symbol@, title@, timestamp@,
            styled(message@, text_color@, styling, colors.reset@)),
{
    let body = style_text(message, text_color, styling, colors.reset);
    let mut out: Vec<char> = Vec::new();
    push_str(&mut out, color);
    push_str(&mut out, symbol);
    out.push(' ');
    push_str(&mut out, colors.reset);
    out.push(' ');
    push_str(&mut out, colors.dim);
    push_str(&mut out, timestamp);
    push_str(&mut out, colors.reset);
    push_str(&mut out, colors.dim);
    out.push(' ');
    push_str(&mut out, symbols.separator);
    out.push(' ');
    push_str(&mut out, colors.reset);
    push_str(&mut out, colors.bold);
    push_str(&mut out, color);
    push_str(&mut out, title);
    push_str(&mut out, colors.reset);
    out.push(' ');
    push_str(&mut out, body.as_str());
    assert(out@ =~= log_line(*colors, *symbols, color@, symbol@, title@, timestamp@,
        styled(message@, text_color@, styling, colors.reset@)));
    string_of(&out)
}

/// Formats a one-line message with the configured palette, symbols and
/// styling switch (fixing each of them if not yet fixed) and the current
/// local time.
pub fn make_log(
    settings: &mut Settings,
    color: &str,
    symbol: &str,
    title: &str,
    text_color: &str,
    message: &str,
) -> (r: String)
    ensures
        line_look_fixed(*old(settings), *final(settings)),
        exists|t: LocalTime|
            t.wf() && r@ == log_line(
                final(settings).colors.unwrap(),
                final(settings).symbols.unwrap(),
                color@,
                symbol@,
                title@,
                timestamp_text(t),
                styled(message@, text_color@, final(settings).text_styling.unwrap(),
                    final(settings).colors.unwrap().reset@),
            ),
{
    let colors = get_colors(settings);
    let symbols = get_symbols(settings);
    let styling = get_text_styling(settings);
    let now = local_now();
    let timestamp = format_timestamp(&now);
    render_line(&colors, &symbols, styling, color, symbol, title, text_color, message, timestamp.as_str())
}

} // verus!
