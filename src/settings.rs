//! The configuration that the renderers read: palette, symbols, borders,
//! the styling switch and the debug switch. Each value is fixed the first
//! time it is set or read; later attempts to set it are ignored.
use vstd::prelude::*;
use crate::styling::{
    Borders, Colors, Symbols, is_default_borders, is_default_colors, is_default_symbols,
};

verus! {

/// Configuration values; `None` means not fixed yet.
pub struct Settings {
    pub colors: Option<Colors>,
    pub symbols: Option<Symbols>,
    pub borders: Option<Borders>,
    pub text_styling: Option<bool>,
    pub debug: Option<bool>,
}

impl Settings {
    /// A configuration with nothing fixed yet.
    pub fn new() -> (r: Settings)
        ensures
            r.colors is None,
            r.symbols is None,
            r.borders is None,
            r.text_styling is None,
            r.debug is None,
    {
        Settings { colors: None, symbols: None, borders: None, text_styling: None, debug: None }
    }
}

/// The palette in use, fixing the built-in one if none was set.
pub fn get_colors(settings: &mut Settings) -> (r: Colors)
    ensures
        match old(settings).colors {
            Some(c) => r == c,
            None => is_default_colors(r),
        },
        final(settings).colors == Some(r),
        final(settings).symbols == old(settings).symbols,
        final(settings).borders == old(settings).borders,
        final(settings).text_styling == old(settings).text_styling,
        final(settings).debug == old(settings).debug,
{
    match settings.colors {
        Some(c) => c,
        None => {
            let c = Colors::default();
            settings.colors = Some(c);
            c
        },
    }
}

/// The symbols in use, fixing the built-in ones if none were set.
pub fn get_symbols(settings: &mut Settings) -> (r: Symbols)
    ensures
        match old(settings).symbols {
            Some(s) => r == s,
            None => is_default_symbols(r),
        },
        final(settings).symbols == Some(r),
        final(settings).colors == old(settings).colors,
        final(settings).borders == old(settings).borders,
        final(settings).text_styling == old(settings).text_styling,
        final(settings).debug == old(settings).debug,
{
    match settings.symbols {
        Some(s) => s,
        None => {
            let s = Symbols::default();
            settings.symbols = Some(s);
            s
        },
    }
}

/// The border glyphs in use, fixing the built-in ones if none were set.
pub fn get_borders(settings: &mut Settings) -> (r: Borders)
    ensures
        match old(settings).borders {
            Some(b) => r == b,
            None => is_default_borders(r),
        },
        final(settings).borders == Some(r),
        final(settings).colors == old(settings).colors,
        final(settings).symbols == old(settings).symbols,
        final(settings).text_styling == old(settings).text_styling,
        final(settings).debug == old(settings).debug,
{
    match settings.borders {
        Some(b) => b,
        None => {
            let b = Borders::default();
            settings.borders = Some(b);
            b
        },
    }
}

/// Whether markup turns into escape codes; on unless set otherwise.
pub fn get_text_styling(settings: &mut Settings) -> (r: bool)
    ensures
        match old(settings).text_styling {
            Some(t) => r == t,
            None => r,
        },
        final(settings).text_styling == Some(r),
        final(settings).colors == old(settings).colors,
        final(settings).symbols == old(settings).symbols,
        final(settings).borders == old(settings).borders,
        final(settings).debug == old(settings).debug,
{
    match settings.text_styling {
        Some(t) => t,
        None => {
            settings.text_styling = Some(true);
            true
        },
    }
}

/// Fixes `value` in `slot` unless a value is there already.
fn set_once<T: Copy>(slot: &mut Option<T>, value: T)
    ensures
        *final(slot) == match *old(slot) {
            Some(v) => Some(v),
            None => Some(value),
        },
{
    if slot.is_none() {
        *slot = Some(value);
    }
}

/// Turns styling on, unless the switch is already fixed.
pub fn text_styling_on(settings: &mut Settings)
    ensures
        final(settings).text_styling == match old(settings).text_styling {
            Some(t) => Some(t),
            None => Some(true),
        },
        final(settings).colors == old(settings).colors,
        final(settings).symbols == old(settings).symbols,
        final(settings).borders == old(settings).borders,
        final(settings).debug == old(settings).debug,
{
    set_once(&mut settings.text_styling, true);
}

/// Turns styling off, unless the switch is already fixed.
pub fn text_styling_off(settings: &mut Settings)
    ensures
        final(settings).text_styling == match old(settings).text_styling {
            Some(t) => Some(t),
            None => Some(false),
        },
        final(settings).colors == old(settings).colors,
        final(settings).symbols == old(settings).symbols,
        final(settings).borders == old(settings).borders,
        final(settings).debug == old(settings).debug,
{
    set_once(&mut settings.text_styling, false);
}

/// Sets whether debug messages reach the console, unless already set.
pub fn set_debug(settings: &mut Settings, debug: bool)
    ensures
        final(settings).debug == match old(settings).debug {
            Some(d) => Some(d),
            None => Some(debug),
        },
        final(settings).colors == old(settings).colors,
        final(settings).symbols == old(settings).symbols,
        final(settings).borders == old(settings).borders,
        final(settings).text_styling == old(settings).text_styling,
{
    set_once(&mut settings.debug, debug);
}

/// Whether debug messages reach the console; on unless set otherwise.
pub fn debug_enabled(settings: &Settings) -> (r: bool)
    ensures
        r == match settings.debug {
            Some(d) => d,
            None => true,
        },
{
    match settings.debug {
        Some(d) => d,
        None => true,
    }
}

/// Sets the palette, unless one is already fixed.
pub fn customize_colors(settings: &mut Settings, colors: Colors)
    ensures
        final(settings).colors == match old(settings).colors {
            Some(c) => Some(c),
            None => Some(colors),
        },
        final(settings).symbols == old(settings).symbols,
        final(settings).borders == old(settings).borders,
        final(settings).text_styling == old(settings).text_styling,
        final(settings).debug == old(settings).debug,
{
    set_once(&mut settings.colors, colors);
}

/// Sets the symbols, unless they are already fixed.
pub fn customize_symbols(settings: &mut Settings, symbols: Symbols)
    ensures
        final(settings).symbols == match old(settings).symbols {
            Some(s) => Some(s),
            None => Some(symbols),
        },
        final(settings).colors == old(settings).colors,
        final(settings).borders == old(settings).borders,
        final(settings).text_styling == old(settings).text_styling,
        final(settings).debug == old(settings).debug,
{
    set_once(&mut settings.symbols, symbols);
}

/// Sets the border glyphs, unless they are already fixed.
pub fn customize_borders(settings: &mut Settings, borders: Borders)
    ensures
        final(settings).borders == match old(settings).borders {
            Some(b) => Some(b),
            None => Some(borders),
        },
        final(settings).colors == old(settings).colors,
        final(settings).symbols == old(settings).symbols,
        final(settings).text_styling == old(settings).text_styling,
        final(settings).debug == old(settings).debug,
{
    set_once(&mut settings.borders, borders);
}

} // verus!

verus! {

/// The palette of `after` is that of `before`, or the built-in one if
/// `before` had none.
pub open spec fn colors_fixed(before: Settings, after: Settings) -> bool {
    &&& after.colors is Some
    &&& match before.colors {
        Some(c) => after.colors == Some(c),
        None => is_default_colors(after.colors.unwrap()),
    }
}

/// The symbols of `after` are those of `before`, or the built-in ones.
pub open spec fn symbols_fixed(before: Settings, after: Settings) -> bool {
    &&& after.symbols is Some
    &&& match before.symbols {
        Some(s) => after.symbols == Some(s),
        None => is_default_symbols(after.symbols.unwrap()),
    }
}

/// The borders of `after` are those of `before`, or the built-in ones.
pub open spec fn borders_fixed(before: Settings, after: Settings) -> bool {
    &&& after.borders is Some
    &&& match before.borders {
        Some(b) => after.borders == Some(b),
        None => is_default_borders(after.borders.unwrap()),
    }
}

/// The styling switch of `after` is that of `before`, or on.
pub open spec fn styling_fixed(before: Settings, after: Settings) -> bool {
    match before.text_styling {
        Some(t) => after.text_styling == Some(t),
        None => after.text_styling == Some(true),
    }
}

/// `after` is `before` with the palette, the borders and the styling switch
/// fixed, as a box reads them.
pub open spec fn box_look_fixed(before: Settings, after: Settings) -> bool {
    &&& colors_fixed(before, after)
    &&& borders_fixed(before, after)
    &&& styling_fixed(before, after)
    &&& after.symbols == before.symbols
    &&& after.debug == before.debug
}

/// `after` is `before` with the palette, the symbols and the styling switch
/// fixed, as a one-line message reads them.
pub open spec fn line_look_fixed(before: Settings, after: Settings) -> bool {
    &&& colors_fixed(before, after)
    &&& symbols_fixed(before, after)
    &&& styling_fixed(before, after)
    &&& after.borders == before.borders
    &&& after.debug == before.debug
}

} // verus!
