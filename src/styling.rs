//! The palette of escape codes, the severity symbols and the border glyphs.
use vstd::prelude::*;
use crate::text::{push_decimal, push_str, string_of, decimal};

verus! {

/// Colors, as escape codes.
#[derive(Clone, Copy)]
pub struct Colors {
    pub info: &'static str,
    pub info_text: &'static str,
    pub warn: &'static str,
    pub warn_text: &'static str,
    pub error: &'static str,
    pub error_text: &'static str,
    pub success: &'static str,
    pub success_text: &'static str,
    pub debug: &'static str,
    pub debug_text: &'static str,
    pub dim: &'static str,
    pub bold: &'static str,
    pub reset: &'static str,
}

/// Symbols that mark each severity, and two separators.
#[derive(Clone, Copy)]
pub struct Symbols {
    pub info: &'static str,
    pub warn: &'static str,
    pub error: &'static str,
    pub success: &'static str,
    pub debug: &'static str,
    pub separator: &'static str,
    pub bullet: &'static str,
}

/// Glyphs that draw a box.
#[derive(Clone, Copy)]
pub struct Borders {
    pub top_left: &'static str,
    pub top_right: &'static str,
    pub bottom_left: &'static str,
    pub bottom_right: &'static str,
    pub horizontal: &'static str,
    pub vertical: &'static str,
}

/// The built-in palette: bright colors for symbols, dark ones for text.
pub open spec fn is_default_colors(c: Colors) -> bool {
    &&& c.info@ == "\x1b[96m"@
    &&& c.info_text@ == "\x1b[36m"@
    &&& c.warn@ == "\x1b[93m"@
    &&& c.warn_text@ == "\x1b[33m"@
    &&& c.error@ == "\x1b[91m"@
    &&& c.error_text@ == "\x1b[31m"@
    &&& c.success@ == "\x1b[92m"@
    &&& c.success_text@ == "\x1b[32m"@
    &&& c.debug@ == "\x1b[95m"@
    &&& c.debug_text@ == "\x1b[35m"@
    &&& c.dim@ == "\x1b[2m"@
    &&& c.bold@ == "\x1b[1m"@
    &&& c.reset@ == "\x1b[0m"@
}

/// The built-in symbols.
pub open spec fn is_default_symbols(s: Symbols) -> bool {
    &&& s.info@ == "ℹ"@
    &&& s.warn@ == "⚠"@
    &&& s.error@ == "✖"@
    &&& s.success@ == "✔"@
    &&& s.debug@ == "⁂"@
    &&& s.separator@ == "│"@
    &&& s.bullet@ == "•"@
}

/// The built-in rounded borders.
pub open spec fn is_default_borders(b: Borders) -> bool {
    &&& b.top_left@ == "╭"@
    &&& b.top_right@ == "╮"@
    &&& b.bottom_left@ == "╰"@
    &&& b.bottom_right@ == "╯"@
    &&& b.horizontal@ == "─"@
    &&& b.vertical@ == "│"@
}

impl Default for Colors {
    fn default() -> (r: Self)
        ensures
            is_default_colors(r),
    {
        Colors {
            info: "\x1b[96m",
            info_text: "\x1b[36m",
            warn: "\x1b[93m",
            warn_text: "\x1b[33m",
            error: "\x1b[91m",
            error_text: "\x1b[31m",
            success: "\x1b[92m",
            success_text: "\x1b[32m",
            debug: "\x1b[95m",
            debug_text: "\x1b[35m",
            dim: "\x1b[2m",
            bold: "\x1b[1m",
            reset: "\x1b[0m",
        }
    }
}

impl Default for Symbols {
    fn default() -> (r: Self)
        ensures
            is_default_symbols(r),
    {
        Symbols {
            info: "ℹ",
            warn: "⚠",
            error: "✖",
            success: "✔",
            debug: "⁂",
            separator: "│",
            bullet: "•",
        }
    }
}

impl Default for Borders {
    fn default() -> (r: Self)
        ensures
            is_default_borders(r),
    {
        Borders {
            top_left: "╭",
            top_right: "╮",
            bottom_left: "╰",
            bottom_right: "╯",
            horizontal: "─",
            vertical: "│",
        }
    }
}

/// `ESC [ <lead> ; 2 ; r ; g ; b m`: a 24-bit color code.
pub open spec fn rgb_code(lead: Seq<char>, r: u8, g: u8, b: u8) -> Seq<char> {
    seq!['\x1b', '['] + lead + seq![';', '2', ';'] + decimal(r as nat) + seq![';']
        + decimal(g as nat) + seq![';'] + decimal(b as nat) + seq!['m']
}

fn rgb_code_exec(lead: &str, r: u8, g: u8, b: u8) -> (s: String)
    ensures
        s@ == rgb_code(lead@, r, g, b),
{
    let mut out: Vec<char> = Vec::new();
    out.push('\x1b');
    out.push('[');
    push_str(&mut out, lead);
    out.push(';');
    out.push('2');
    out.push(';');
    push_decimal(&mut out, r as u64);
    out.push(';');
    push_decimal(&mut out, g as u64);
    out.push(';');
    push_decimal(&mut out, b as u64);
    out.push('m');
    assert(out@ =~= rgb_code(lead@, r, g, b));
    string_of(&out)
}

/// The foreground color code for `(r, g, b)`: `ESC[38;2;r;g;bm`.
pub fn rgb_to_ansi(r: u8, g: u8, b: u8) -> (s: String)
    ensures
        s@ == rgb_code(seq!['3', '8'], r, g, b),
{
    proof {
        reveal_strlit("38");
    }
    assert("38"@ =~= seq!['3', '8']);
    rgb_code_exec("38", r, g, b)
}

/// The background color code for `(r, g, b)`: `ESC[48;2;r;g;bm`.
pub fn rgb_to_ansi_bg(r: u8, g: u8, b: u8) -> (s: String)
    ensures
        s@ == rgb_code(seq!['4', '8'], r, g, b),
{
    proof {
        reveal_strlit("48");
    }
    assert("48"@ =~= seq!['4', '8']);
    rgb_code_exec("48", r, g, b)
}

} // verus!
