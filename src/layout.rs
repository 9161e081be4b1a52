//! The box layout engine: a bordered, word-wrapped, padded rendering of a
//! title and a message.
use vstd::prelude::*;
use crate::markup::{lemma_styled_unpaired, style_text, styled, unpaired};
use crate::styling::{Borders, Colors};
use crate::ansi::{
    ESC, closed, escape_at, escape_free, lemma_closed_append, lemma_strip_all_once, lemma_strip_append,
    lemma_strip_clean, only_codes, strip, strip_all, strip_ansi_codes,
};
use crate::text::{
    chars_of, push_all, push_range, push_repeat_char, push_repeat_str, push_str, repeat_char, repeat_seq,
    string_of,
};

verus! {

/// Unicode white space, as `char::is_whitespace` documents it.
pub open spec fn is_space(c: char) -> bool {
    ('\u{9}' <= c && c <= '\u{d}') || c == ' ' || c == '\u{85}' || c == '\u{a0}'
        || c == '\u{1680}' || ('\u{2000}' <= c && c <= '\u{200a}') || c == '\u{2028}'
        || c == '\u{2029}' || c == '\u{202f}' || c == '\u{205f}' || c == '\u{3000}'
}

fn is_space_exec(c: char) -> (r: bool)
    ensures
        r == is_space(c),
{
    ('\u{9}' <= c && c <= '\u{d}') || c == ' ' || c == '\u{85}' || c == '\u{a0}'
        || c == '\u{1680}' || ('\u{2000}' <= c && c <= '\u{200a}') || c == '\u{2028}'
        || c == '\u{2029}' || c == '\u{202f}' || c == '\u{205f}' || c == '\u{3000}'
}

/// The lines of `s` (split at each newline), the first one starting with `cur`.
pub open spec fn lines_from(s: Seq<char>, cur: Seq<char>) -> Seq<Seq<char>>
    decreases s.len(),
{
    if s.len() == 0 {
        seq![cur]
    } else if s[0] == '\n' {
        seq![cur] + lines_from(s.skip(1), Seq::empty())
    } else {
        lines_from(s.skip(1), cur.push(s[0]))
    }
}

/// The paragraphs of `s`: the pieces between newlines, empty ones included.
pub open spec fn paragraphs(s: Seq<char>) -> Seq<Seq<char>> {
    lines_from(s, Seq::empty())
}

/// `cur` as a list of words: itself if it is not empty, else none.
pub open spec fn pending(cur: Seq<char>) -> Seq<Seq<char>> {
    if cur.len() > 0 { seq![cur] } else { Seq::empty() }
}

/// The words of `s` (maximal runs without white space), the first one
/// starting with `cur`.
pub open spec fn words_from(s: Seq<char>, cur: Seq<char>) -> Seq<Seq<char>>
    decreases s.len(),
{
    if s.len() == 0 {
        pending(cur)
    } else if is_space(s[0]) {
        pending(cur) + words_from(s.skip(1), Seq::empty())
    } else {
        words_from(s.skip(1), cur.push(s[0]))
    }
}

/// The words of `s`.
pub open spec fn words(s: Seq<char>) -> Seq<Seq<char>> {
    words_from(s, Seq::empty())
}

/// The character views of a list of character vectors.
pub open spec fn views(v: Seq<Vec<char>>) -> Seq<Seq<char>> {
    v.map_values(|x: Vec<char>| x@)
}

proof fn lemma_views_push(v: Seq<Vec<char>>, x: Vec<char>)
    ensures
        views(v.push(x)) == views(v).push(x@),
{
    assert(views(v.push(x)) =~= views(v).push(x@));
}

fn split_paragraphs(s: &Vec<char>) -> (r: Vec<Vec<char>>)
    ensures
        views(r@) == paragraphs(s@),
{
    let mut out: Vec<Vec<char>> = Vec::new();
    let mut cur: Vec<char> = Vec::new();
    let mut i: usize = 0;
    assert(s@.skip(0) =~= s@);
    assert(views(out@) =~= Seq::<Seq<char>>::empty());
    assert(cur@ =~= Seq::<char>::empty());
    while i < s.len()
        invariant
            i <= s@.len(),
            paragraphs(s@) == views(out@) + lines_from(s@.skip(i as int), cur@),
        decreases s.len() - i,
    {
        let ghost rest = s@.skip(i as int);
        assert(rest.skip(1) =~= s@.skip(i + 1));
        if s[i] == '\n' {
            let ghost old_out = out@;
            let ghost old_cur = cur@;
            proof {
                lemma_views_push(out@, cur);
            }
            out.push(cur);
            cur = Vec::new();
            assert(views(out@) + lines_from(s@.skip(i + 1), cur@) =~= views(old_out) + (seq![old_cur]
                + lines_from(rest.skip(1), Seq::empty())));
        } else {
            cur.push(s[i]);
        }
        i = i + 1;
    }
    let ghost old_out = out@;
    proof {
        lemma_views_push(out@, cur);
    }
    assert(s@.skip(i as int) =~= Seq::<char>::empty());
    out.push(cur);
    assert(views(out@) =~= views(old_out) + lines_from(Seq::<char>::empty(), cur@));
    out
}


fn split_words(p: &Vec<char>) -> (r: Vec<Vec<char>>)
    ensures
        views(r@) == words(p@),
{
    let mut out: Vec<Vec<char>> = Vec::new();
    let mut cur: Vec<char> = Vec::new();
    let mut i: usize = 0;
    assert(p@.skip(0) =~= p@);
    assert(views(out@) =~= Seq::<Seq<char>>::empty());
    assert(cur@ =~= Seq::<char>::empty());
    while i < p.len()
        invariant
            i <= p@.len(),
            words(p@) == views(out@) + words_from(p@.skip(i as int), cur@),
        decreases p.len() - i,
    {
        let ghost rest = p@.skip(i as int);
        assert(rest.skip(1) =~= p@.skip(i + 1));
        if is_space_exec(p[i]) {
            let ghost old_out = out@;
            let ghost old_cur = cur@;
            if cur.len() > 0 {
                proof {
                    lemma_views_push(out@, cur);
                }
                out.push(cur);
                cur = Vec::new();
            } else {
                assert(cur@ =~= Seq::<char>::empty());
            }
            assert(views(out@) + words_from(p@.skip(i + 1), cur@) =~= views(old_out) + (pending(old_cur)
                + words_from(rest.skip(1), Seq::empty())));
        } else {
            cur.push(p[i]);
        }
        i = i + 1;
    }
    assert(p@.skip(i as int) =~= Seq::<char>::empty());
    if cur.len() > 0 {
        let ghost old_out = out@;
        let ghost last = cur@;
        proof {
            lemma_views_push(out@, cur);
        }
        out.push(cur);
        assert(views(out@) =~= views(old_out) + pending(last));
    } else {
        assert(views(out@) =~= views(out@) + pending(cur@));
    }
    out
}


/// A word longer than `max` cut into pieces of `max` characters, the last
/// piece holding what remains.
pub open spec fn chunks(w: Seq<char>, max: nat) -> Seq<Seq<char>>
    decreases w.len(),
{
    if max == 0 || w.len() <= max {
        seq![w]
    } else {
        seq![w.take(max as int)] + chunks(w.skip(max as int), max)
    }
}

/// Greedy wrapping of `ws` into lines of at most `max` characters, the
/// current line being `cur`. Words join with one space while they fit; a
/// word that does not fit starts a new line; a word longer than `max` ends
/// the current line and is cut by `chunks`, each piece a line of its own.
pub open spec fn wrap_words(ws: Seq<Seq<char>>, max: nat, cur: Seq<char>) -> Seq<Seq<char>>
    decreases ws.len(),
{
    if ws.len() == 0 {
        pending(cur)
    } else {
        let w = ws[0];
        let rest = ws.skip(1);
        if w.len() > max {
            pending(cur) + chunks(w, max) + wrap_words(rest, max, Seq::empty())
        } else if cur.len() == 0 {
            wrap_words(rest, max, w)
        } else if cur.len() + 1 + w.len() <= max {
            wrap_words(rest, max, cur + seq![' '] + w)
        } else {
            seq![cur] + wrap_words(rest, max, w)
        }
    }
}

/// The lines of a non-empty paragraph.
pub open spec fn paragraph_lines(p: Seq<char>, max: nat) -> Seq<Seq<char>> {
    wrap_words(words(p), max, Seq::empty())
}

/// What a box is drawn with.
pub struct BoxStyle<'a> {
    pub box_color: &'a str,
    pub text_color: &'a str,
    pub colors: Colors,
    pub borders: Borders,
    pub styling: bool,
}

/// Spaces that follow a line of `n` characters in a box `w` wide.
pub open spec fn padding(w: nat, n: nat) -> nat {
    if w >= n + 4 { (w - (n + 4)) as nat } else { 0 }
}

/// One content row: border, a space, the styled line, padding, border.
pub open spec fn line_row(st: BoxStyle, w: nat, line: Seq<char>) -> Seq<char> {
    (st.box_color@ + st.borders.vertical@ + seq![' '])
        + styled(line, st.text_color@, st.styling, st.colors.reset@)
        + (st.colors.reset@ + st.box_color@ + repeat_char(' ', padding(w, line.len()))
        + st.borders.vertical@ + st.colors.reset@ + seq!['\n'])
}

/// The row drawn for an empty paragraph.
pub open spec fn blank_row(st: BoxStyle, w: nat) -> Seq<char> {
    st.box_color@ + st.borders.vertical@ + seq![' '] + repeat_char(' ', padding(w, 0))
        + st.borders.vertical@ + st.colors.reset@ + seq!['\n']
}

/// The rows of a list of lines.
pub open spec fn line_rows(st: BoxStyle, w: nat, lines: Seq<Seq<char>>) -> Seq<char>
    decreases lines.len(),
{
    if lines.len() == 0 {
        Seq::empty()
    } else {
        line_row(st, w, lines[0]) + line_rows(st, w, lines.skip(1))
    }
}

/// The rows of one paragraph.
pub open spec fn paragraph_rows(st: BoxStyle, w: nat, p: Seq<char>) -> Seq<char> {
    if p.len() == 0 {
        blank_row(st, w)
    } else {
        line_rows(st, w, paragraph_lines(p, padding(w, 0)))
    }
}

/// The rows of a list of paragraphs.
pub open spec fn body_rows(st: BoxStyle, w: nat, ps: Seq<Seq<char>>) -> Seq<char>
    decreases ps.len(),
{
    if ps.len() == 0 {
        Seq::empty()
    } else {
        paragraph_rows(st, w, ps[0]) + body_rows(st, w, ps.skip(1))
    }
}

proof fn lemma_line_rows_append(st: BoxStyle, w: nat, a: Seq<Seq<char>>, b: Seq<Seq<char>>)
    ensures
        line_rows(st, w, a + b) == line_rows(st, w, a) + line_rows(st, w, b),
    decreases a.len(),
{
    if a.len() == 0 {
        assert(a + b =~= b);
    } else {
        assert((a + b).skip(1) =~= a.skip(1) + b);
        lemma_line_rows_append(st, w, a.skip(1), b);
    }
}

proof fn lemma_line_rows_one(st: BoxStyle, w: nat, l: Seq<char>)
    ensures
        line_rows(st, w, seq![l]) == line_row(st, w, l),
{
    assert(seq![l].skip(1) =~= Seq::<Seq<char>>::empty());
    assert(line_rows(st, w, Seq::<Seq<char>>::empty()) == Seq::<char>::empty());
    assert(line_row(st, w, l) + Seq::<char>::empty() =~= line_row(st, w, l));
}

#[verifier::rlimit(40)]
fn push_line_row(out: &mut Vec<char>, st: &BoxStyle, w: usize, line: &Vec<char>)
    ensures
        final(out)@ == old(out)@ + line_row(*st, w as nat, line@),
{
    let text = string_of(line);
    let shown = style_text(text.as_str(), st.text_color, st.styling, st.colors.reset);
    push_str(out, st.box_color);
    push_str(out, st.borders.vertical);
    out.push(' ');
    push_str(out, shown.as_str());
    push_str(out, st.colors.reset);
    push_str(out, st.box_color);
    let pad: usize = if line.len() <= w && w - line.len() >= 4 { w - line.len() - 4 } else { 0 };
    push_repeat_char(out, ' ', pad);
    push_str(out, st.borders.vertical);
    push_str(out, st.colors.reset);
    out.push('\n');
    assert(out@ =~= old(out)@ + line_row(*st, w as nat, line@));
}

fn push_blank_row(out: &mut Vec<char>, st: &BoxStyle, w: usize)
    ensures
        final(out)@ == old(out)@ + blank_row(*st, w as nat),
{
    push_str(out, st.box_color);
    push_str(out, st.borders.vertical);
    out.push(' ');
    let pad: usize = if w >= 4 { w - 4 } else { 0 };
    push_repeat_char(out, ' ', pad);
    push_str(out, st.borders.vertical);
    push_str(out, st.colors.reset);
    out.push('\n');
    assert(out@ =~= old(out)@ + blank_row(*st, w as nat));
}

fn push_chunks(out: &mut Vec<char>, st: &BoxStyle, w: usize, word: &Vec<char>, max: usize)
    requires
        max > 0,
    ensures
        final(out)@ == old(out)@ + line_rows(*st, w as nat, chunks(word@, max as nat)),
{
    let mut k: usize = 0;
    assert(word@.skip(0) =~= word@);
    while word.len() - k > max
        invariant
            max > 0,
            k <= word@.len(),
            old(out)@ + line_rows(*st, w as nat, chunks(word@, max as nat))
                == out@ + line_rows(*st, w as nat, chunks(word@.skip(k as int), max as nat)),
        decreases word.len() - k,
    {
        let ghost rest = word@.skip(k as int);
        let mut piece: Vec<char> = Vec::new();
        push_range(&mut piece, word, k, k + max);
        assert(piece@ =~= rest.take(max as int));
        assert(rest.skip(max as int) =~= word@.skip(k + max));
        let ghost before = out@;
        push_line_row(out, st, w, &piece);
        proof {
            lemma_line_rows_append(*st, w as nat, seq![rest.take(max as int)], chunks(rest.skip(max as int), max as nat));
            lemma_line_rows_one(*st, w as nat, rest.take(max as int));
        }
        assert(out@ + line_rows(*st, w as nat, chunks(word@.skip(k + max), max as nat))
            =~= before + line_rows(*st, w as nat, chunks(rest, max as nat)));
        k = k + max;
    }
    let mut piece: Vec<char> = Vec::new();
    push_range(&mut piece, word, k, word.len());
    assert(piece@ =~= word@.skip(k as int));
    proof {
        lemma_line_rows_one(*st, w as nat, piece@);
    }
    push_line_row(out, st, w, &piece);
}


proof fn lemma_pending_rows(st: BoxStyle, w: nat, cur: Seq<char>)
    ensures
        line_rows(st, w, pending(cur)) == if cur.len() > 0 { line_row(st, w, cur) } else { Seq::empty() },
{
    if cur.len() > 0 {
        lemma_line_rows_one(st, w, cur);
    }
}

fn copy_chars(v: &Vec<char>) -> (r: Vec<char>)
    ensures
        r@ == v@,
{
    let mut r: Vec<char> = Vec::new();
    push_all(&mut r, v);
    assert(r@ =~= v@);
    r
}

fn push_wrapped(out: &mut Vec<char>, st: &BoxStyle, w: usize, ws: &Vec<Vec<char>>, max: usize)
    requires
        max > 0,
    ensures
        final(out)@ == old(out)@ + line_rows(*st, w as nat, wrap_words(views(ws@), max as nat, Seq::empty())),
{
    let ghost all = views(ws@);
    let mut cur: Vec<char> = Vec::new();
    let mut i: usize = 0;
    assert(all.skip(0) =~= all);
    assert(cur@ =~= Seq::<char>::empty());
    while i < ws.len()
        invariant
            max > 0,
            all == views(ws@),
            i <= ws@.len(),
            cur@.len() <= max,
            old(out)@ + line_rows(*st, w as nat, wrap_words(all, max as nat, Seq::empty()))
                == out@ + line_rows(*st, w as nat, wrap_words(all.skip(i as int), max as nat, cur@)),
        decreases ws.len() - i,
    {
        let ghost rest = all.skip(i as int);
        let ghost before = out@;
        let ghost old_cur = cur@;
        let word = &ws[i];
        assert(rest[0] == word@);
        assert(rest.skip(1) =~= all.skip(i + 1));
        if word.len() > max {
            proof {
                lemma_pending_rows(*st, w as nat, cur@);
                lemma_line_rows_append(*st, w as nat, pending(old_cur) + chunks(word@, max as nat),
                    wrap_words(rest.skip(1), max as nat, Seq::empty()));
                lemma_line_rows_append(*st, w as nat, pending(old_cur), chunks(word@, max as nat));
            }
            if cur.len() > 0 {
                push_line_row(out, st, w, &cur);
            }
            push_chunks(out, st, w, word, max);
            cur = Vec::new();
            assert(cur@ =~= Seq::<char>::empty());
            assert(out@ + line_rows(*st, w as nat, wrap_words(all.skip(i + 1), max as nat, cur@))
                =~= before + line_rows(*st, w as nat, wrap_words(rest, max as nat, old_cur)));
        } else if cur.len() == 0 {
            cur = copy_chars(word);
        } else if cur.len() < max && word.len() <= max - cur.len() - 1 {
            cur.push(' ');
            push_all(&mut cur, word);
            assert(cur@ =~= old_cur + seq![' '] + word@);
        } else {
            proof {
                lemma_line_rows_append(*st, w as nat, seq![old_cur],
                    wrap_words(rest.skip(1), max as nat, word@));
                lemma_line_rows_one(*st, w as nat, old_cur);
            }
            push_line_row(out, st, w, &cur);
            cur = copy_chars(word);
            assert(out@ + line_rows(*st, w as nat, wrap_words(all.skip(i + 1), max as nat, cur@))
                =~= before + line_rows(*st, w as nat, wrap_words(rest, max as nat, old_cur)));
        }
        i = i + 1;
    }
    assert(all.skip(i as int) =~= Seq::<Seq<char>>::empty());
    proof {
        lemma_pending_rows(*st, w as nat, cur@);
    }
    if cur.len() > 0 {
        push_line_row(out, st, w, &cur);
    } else {
        assert(out@ + Seq::<char>::empty() =~= out@);
    }
}

fn push_paragraphs(out: &mut Vec<char>, st: &BoxStyle, w: usize, ps: &Vec<Vec<char>>)
    requires
        w >= 5,
    ensures
        final(out)@ == old(out)@ + body_rows(*st, w as nat, views(ps@)),
{
    let ghost all = views(ps@);
    let mut i: usize = 0;
    assert(all.skip(0) =~= all);
    while i < ps.len()
        invariant
            w >= 5,
            all == views(ps@),
            i <= ps@.len(),
            old(out)@ + body_rows(*st, w as nat, all)
                == out@ + body_rows(*st, w as nat, all.skip(i as int)),
        decreases ps.len() - i,
    {
        let ghost rest = all.skip(i as int);
        let ghost before = out@;
        let p = &ps[i];
        assert(rest[0] == p@);
        assert(rest.skip(1) =~= all.skip(i + 1));
        if p.len() == 0 {
            push_blank_row(out, st, w);
        } else {
            let ws = split_words(p);
            push_wrapped(out, st, w, &ws, w - 4);
        }
        assert(out@ + body_rows(*st, w as nat, all.skip(i + 1))
            =~= before + body_rows(*st, w as nat, rest));
        i = i + 1;
    }
    assert(all.skip(i as int) =~= Seq::<Seq<char>>::empty());
    assert(out@ + Seq::<char>::empty() =~= out@);
}


/// The hourglass and a space, then the clock time.
pub open spec fn stamp(clock: Seq<char>) -> Seq<char> {
    seq!['\u{23f3}', ' '] + clock
}

/// The width a box is drawn at: the one asked for, raised to what the
/// symbol, title and stamp need.
pub open spec fn box_width(width: nat, symbol: Seq<char>, title: Seq<char>, clock: Seq<char>) -> nat {
    let least = title.len() + stamp(clock).len() + symbol.len() + 4;
    if width < least { least } else { width }
}

/// The top border: corner, bold symbol and title, a rule, the dim stamp,
/// corner; `w` characters wide once the escape codes are removed (with
/// one-character border glyphs).
pub open spec fn top_border(st: BoxStyle, w: nat, symbol: Seq<char>, title: Seq<char>, clock: Seq<char>) -> Seq<char> {
    let fill = (w - title.len() - stamp(clock).len() - symbol.len() - 4) as nat;
    st.box_color@ + st.borders.top_left@ + st.colors.bold@ + seq![' '] + symbol + seq![' '] + title
        + st.box_color@ + repeat_seq(st.borders.horizontal@, fill) + st.colors.dim@ + stamp(clock)
        + st.colors.reset@ + st.box_color@ + st.borders.top_right@ + st.colors.reset@ + seq!['\n']
}

/// The bottom border: corner, a space, a rule of `w - 4`, corner, a space.
pub open spec fn bottom_border(st: BoxStyle, w: nat) -> Seq<char> {
    st.box_color@ + st.borders.bottom_left@ + seq![' '] + repeat_seq(st.borders.horizontal@, padding(w, 0))
        + st.borders.bottom_right@ + seq![' '] + st.colors.reset@ + seq!['\n']
}

/// The text that the body is wrapped from: the message with its markup
/// applied and every escape sequence removed.
pub open spec fn clean_message(st: BoxStyle, message: Seq<char>) -> Seq<char> {
    strip_all(styled(message, st.text_color@, st.styling, st.colors.reset@))
}

/// The whole box.
pub open spec fn box_text(
    st: BoxStyle,
    symbol: Seq<char>,
    title: Seq<char>,
    message: Seq<char>,
    width: nat,
    clock: Seq<char>,
) -> Seq<char> {
    let w = box_width(width, symbol, title, clock);
    top_border(st, w, symbol, title, clock) + body_rows(st, w, paragraphs(clean_message(st, message)))
        + bottom_border(st, w)
}

fn push_top_border(
    out: &mut Vec<char>,
    st: &BoxStyle,
    w: usize,
    symbol: &str,
    title: &str,
    clock: &str,
    stamp_chars: &Vec<char>,
    fill: usize,
)
    requires
        stamp_chars@ == stamp(clock@),
        fill == w - title@.len() - stamp(clock@).len() - symbol@.len() - 4,
    ensures
        final(out)@ == old(out)@ + top_border(*st, w as nat, symbol@, title@, clock@),
{
    push_str(out, st.box_color);
    push_str(out, st.borders.top_left);
    push_str(out, st.colors.bold);
    out.push(' ');
    push_str(out, symbol);
    out.push(' ');
    push_str(out, title);
    push_str(out, st.box_color);
    push_repeat_str(out, st.borders.horizontal, fill);
    push_str(out, st.colors.dim);
    push_all(out, stamp_chars);
    push_str(out, st.colors.reset);
    push_str(out, st.box_color);
    push_str(out, st.borders.top_right);
    push_str(out, st.colors.reset);
    out.push('\n');
    assert(out@ =~= old(out)@ + top_border(*st, w as nat, symbol@, title@, clock@));
}

fn push_bottom_border(out: &mut Vec<char>, st: &BoxStyle, w: usize)
    requires
        w >= 4,
    ensures
        final(out)@ == old(out)@ + bottom_border(*st, w as nat),
{
    push_str(out, st.box_color);
    push_str(out, st.borders.bottom_left);
    out.push(' ');
    push_repeat_str(out, st.borders.horizontal, w - 4);
    push_str(out, st.borders.bottom_right);
    out.push(' ');
    push_str(out, st.colors.reset);
    out.push('\n');
    assert(out@ =~= old(out)@ + bottom_border(*st, w as nat));
}

/// Draws the box for `title` and `message` at `width` (raised if too small),
/// with `clock` as the time shown in the top border.
pub fn render_box(
    st: &BoxStyle,
    symbol: &str,
    title: &str,
    message: &str,
    width: usize,
    clock: &str,
) -> (r: String)
    requires
        title@.len() + symbol@.len() + clock@.len() + 6 <= usize::MAX,
    ensures
        r@ == box_text(*st, symbol@, title@, message@, width as nat, clock@),
{
    let title_len = title.unicode_len();
    let symbol_len = symbol.unicode_len();
    let mut stamp_chars: Vec<char> = Vec::new();
    stamp_chars.push('\u{23f3}');
    stamp_chars.push(' ');
    push_str(&mut stamp_chars, clock);
    assert(stamp_chars@ =~= stamp(clock@));
    let least = title_len + stamp_chars.len() + symbol_len + 4;
    let w = if width < least { least } else { width };
    let fill = w - title_len - stamp_chars.len() - symbol_len - 4;

    let mut out: Vec<char> = Vec::new();
    push_top_border(&mut out, st, w, symbol, title, clock, &stamp_chars, fill);
    let processed = style_text(message, st.text_color, st.styling, st.colors.reset);
    let clean = strip_ansi_codes(processed.as_str());
    let clean_chars = chars_of(clean.as_str());
    let ps = split_paragraphs(&clean_chars);
    push_paragraphs(&mut out, st, w, &ps);
    push_bottom_border(&mut out, st, w);
    assert(out@ =~= box_text(*st, symbol@, title@, message@, width as nat, clock@));
    string_of(&out)
}


/// A word longer than `max` (with `max > 0`) is cut into pieces of one to
/// `max` characters which, put back together, give the word.
pub proof fn lemma_chunks(w: Seq<char>, max: nat)
    requires
        max > 0,
        w.len() > 0,
    ensures
        chunks(w, max).flatten() == w,
        forall|k: int| 0 <= k < chunks(w, max).len() ==>
            0 < #[trigger] chunks(w, max)[k].len() <= max,
    decreases w.len(),
{
    if w.len() <= max {
        assert(chunks(w, max) == seq![w]);
        assert(seq![w].drop_first() =~= Seq::<Seq<char>>::empty());
        assert(Seq::<Seq<char>>::empty().flatten() == Seq::<char>::empty());
        assert(w + Seq::<char>::empty() =~= w);
        assert(seq![w].flatten() == seq![w].first() + seq![w].drop_first().flatten());
    } else {
        let rest = w.skip(max as int);
        lemma_chunks(rest, max);
        let c = chunks(w, max);
        assert(c.first() == w.take(max as int));
        assert(c.drop_first() =~= chunks(rest, max));
        assert(w.take(max as int) + rest =~= w);
        assert(c.flatten() == c.first() + c.drop_first().flatten());
        assert forall|k: int| 0 <= k < c.len() implies 0 < #[trigger] c[k].len() <= max by {
            if k > 0 {
                assert(c[k] == chunks(rest, max)[k - 1]);
            }
        }
    }
}

proof fn lemma_chunks_fit(w: Seq<char>, max: nat)
    requires
        max > 0,
    ensures
        forall|k: int| 0 <= k < chunks(w, max).len() ==> #[trigger] chunks(w, max)[k].len() <= max,
{
    if w.len() > 0 {
        lemma_chunks(w, max);
    } else {
        assert forall|k: int| 0 <= k < chunks(w, max).len() implies #[trigger] chunks(w, max)[k].len() <= max by {
            assert(chunks(w, max) == seq![w]);
        }
    }
}

proof fn lemma_wrap_fits(ws: Seq<Seq<char>>, max: nat, cur: Seq<char>)
    requires
        max > 0,
        cur.len() <= max,
    ensures
        forall|k: int| 0 <= k < wrap_words(ws, max, cur).len() ==>
            #[trigger] wrap_words(ws, max, cur)[k].len() <= max,
    decreases ws.len(),
{
    let r = wrap_words(ws, max, cur);
    if ws.len() == 0 {
        assert forall|k: int| 0 <= k < r.len() implies #[trigger] r[k].len() <= max by {
            assert(r[k] == cur);
        }
    } else {
        let w = ws[0];
        let rest = ws.skip(1);
        if w.len() > max {
            lemma_chunks_fit(w, max);
            lemma_wrap_fits(rest, max, Seq::empty());
            let a = pending(cur);
            let b = chunks(w, max);
            let c = wrap_words(rest, max, Seq::empty());
            assert(r == a + b + c);
            assert forall|k: int| 0 <= k < r.len() implies #[trigger] r[k].len() <= max by {
                if k < a.len() {
                    assert(r[k] == cur);
                } else if k < a.len() + b.len() {
                    assert(r[k] == b[k - a.len()]);
                } else {
                    assert(r[k] == c[k - a.len() - b.len()]);
                }
            }
        } else if cur.len() == 0 {
            lemma_wrap_fits(rest, max, w);
            let c = wrap_words(rest, max, w);
            assert(r == c);
            assert forall|k: int| 0 <= k < r.len() implies #[trigger] r[k].len() <= max by {
                assert(r[k] == c[k]);
            }
        } else if cur.len() + 1 + w.len() <= max {
            lemma_wrap_fits(rest, max, cur + seq![' '] + w);
            let c = wrap_words(rest, max, cur + seq![' '] + w);
            assert(r == c);
            assert forall|k: int| 0 <= k < r.len() implies #[trigger] r[k].len() <= max by {
                assert(r[k] == c[k]);
            }
        } else {
            lemma_wrap_fits(rest, max, w);
            let c = wrap_words(rest, max, w);
            assert(r == seq![cur] + c);
            assert forall|k: int| 0 <= k < r.len() implies #[trigger] r[k].len() <= max by {
                if k > 0 {
                    assert(r[k] == c[k - 1]);
                }
            }
        }
    }
}

/// In a box `w` wide, every line that a paragraph wraps into holds at most
/// `w - 4` characters, so its text and its padding fill exactly `w - 4`
/// columns between the borders.
pub proof fn lemma_rows_fill_width(p: Seq<char>, w: nat)
    requires
        w >= 5,
    ensures
        forall|k: int| 0 <= k < paragraph_lines(p, padding(w, 0)).len() ==> {
            let l = #[trigger] paragraph_lines(p, padding(w, 0))[k];
            l.len() <= w - 4 && l.len() + padding(w, l.len()) == w - 4
        },
        padding(w, 0) == w - 4,
{
    lemma_wrap_fits(words(p), padding(w, 0), Seq::empty());
}


/// `s` holds no escape character.
pub open spec fn no_esc(s: Seq<char>) -> bool {
    forall|i: int| 0 <= i < s.len() ==> s[i] != ESC
}

/// `s` holds neither an escape character nor a marker character.
pub open spec fn quiet(s: Seq<char>) -> bool {
    forall|i: int| 0 <= i < s.len() ==> {
        let c = #[trigger] s[i];
        c != ESC && c != '*' && c != '_' && c != '~' && c != '@'
    }
}

/// The box colors are escape codes and the vertical border glyph holds no
/// escape character.
pub open spec fn coded_style(st: BoxStyle) -> bool {
    &&& only_codes(st.box_color@)
    &&& only_codes(st.text_color@)
    &&& only_codes(st.colors.reset@)
    &&& no_esc(st.borders.vertical@)
}

/// A content row as it reads without escape sequences: border, a space,
/// `text`, padding, border.
pub open spec fn plain_row(st: BoxStyle, w: nat, text: Seq<char>) -> Seq<char> {
    st.borders.vertical@ + seq![' '] + text + repeat_char(' ', padding(w, text.len()))
        + st.borders.vertical@ + seq!['\n']
}

proof fn lemma_no_esc(s: Seq<char>)
    requires
        no_esc(s),
    ensures
        closed(s),
        strip(s) == s,
{
    assert forall|i: int| !#[trigger] escape_at(s, i) by {
        if 0 <= i < s.len() {
            assert(s[i] != ESC);
        }
    }
    assert(escape_free(s));
    lemma_strip_clean(s);
}

proof fn lemma_codes(s: Seq<char>)
    requires
        only_codes(s),
    ensures
        closed(s),
        strip(s) == Seq::<char>::empty(),
{
    assert(strip(s) =~= Seq::<char>::empty());
}

proof fn lemma_strip_cat(a: Seq<char>, b: Seq<char>)
    requires
        closed(a),
        closed(b),
    ensures
        closed(a + b),
        strip(a + b) == strip(a) + strip(b),
{
    lemma_closed_append(a, b);
    lemma_strip_append(a, b);
}

proof fn lemma_spaces(n: nat)
    ensures
        no_esc(repeat_char(' ', n)),
        repeat_char(' ', n).len() == n,
    decreases n,
{
    if n > 0 {
        lemma_spaces((n - 1) as nat);
        let r = repeat_char(' ', n);
        assert forall|i: int| 0 <= i < r.len() implies r[i] != ESC by {
            if i < n - 1 {
                assert(r[i] == repeat_char(' ', (n - 1) as nat)[i]);
            }
        }
    }
}

proof fn lemma_row_head(bc: Seq<char>, v: Seq<char>)
    requires
        only_codes(bc),
        no_esc(v),
    ensures
        closed(bc + v + seq![' ']),
        strip(bc + v + seq![' ']) == v + seq![' '],
{
    let sp = seq![' '];
    lemma_codes(bc);
    lemma_no_esc(v);
    lemma_no_esc(sp);
    lemma_strip_cat(bc, v);
    lemma_strip_cat(bc + v, sp);
    assert(strip(bc + v + sp) =~= v + sp);
}

proof fn lemma_row_text(tc: Seq<char>, line: Seq<char>, rs: Seq<char>)
    requires
        only_codes(tc),
        only_codes(rs),
        no_esc(line),
    ensures
        closed(tc + line + rs),
        strip(tc + line + rs) == line,
{
    lemma_codes(tc);
    lemma_codes(rs);
    lemma_no_esc(line);
    lemma_strip_cat(tc, line);
    lemma_strip_cat(tc + line, rs);
    assert(strip(tc + line + rs) =~= line);
}

proof fn lemma_row_tail(bc: Seq<char>, v: Seq<char>, rs: Seq<char>, n: nat)
    requires
        only_codes(bc),
        only_codes(rs),
        no_esc(v),
    ensures
        closed(rs + bc + repeat_char(' ', n) + v + rs + seq!['\n']),
        strip(rs + bc + repeat_char(' ', n) + v + rs + seq!['\n']) == repeat_char(' ', n) + v + seq!['\n'],
{
    let pad = repeat_char(' ', n);
    let nl = seq!['\n'];
    lemma_codes(bc);
    lemma_codes(rs);
    lemma_no_esc(v);
    lemma_no_esc(nl);
    lemma_spaces(n);
    lemma_no_esc(pad);
    lemma_strip_cat(rs, bc);
    lemma_strip_cat(rs + bc, pad);
    assert(strip(rs + bc + pad) =~= pad);
    lemma_strip_cat(rs + bc + pad, v);
    lemma_strip_cat(rs + bc + pad + v, rs);
    assert(strip(rs + bc + pad + v + rs) =~= pad + v);
    lemma_strip_cat(rs + bc + pad + v + rs, nl);
    assert(strip(rs + bc + pad + v + rs + nl) =~= pad + v + nl);
}

proof fn lemma_plain_row_no_esc(st: BoxStyle, w: nat, line: Seq<char>)
    requires
        no_esc(st.borders.vertical@),
        no_esc(line),
    ensures
        no_esc(plain_row(st, w, line)),
{
    let v = st.borders.vertical@;
    let pad = repeat_char(' ', padding(w, line.len()));
    lemma_spaces(padding(w, line.len()));
    let plain = plain_row(st, w, line);
    assert forall|i: int| 0 <= i < plain.len() implies plain[i] != ESC by {
        let k1 = v.len() + 1;
        let k2 = k1 + line.len();
        let k3 = k2 + pad.len();
        if i < v.len() {
            assert(plain[i] == v[i]);
        } else if i < k1 {
        } else if i < k2 {
            assert(plain[i] == line[i - k1]);
        } else if i < k3 {
            assert(plain[i] == pad[i - k2]);
        } else if i < k3 + v.len() {
            assert(plain[i] == v[i - k3]);
        }
    }
}

/// A content row, stripped of its escape sequences, is the border, a space,
/// the line, padding and the border, when the box colors are escape codes
/// and no marker pairs up within the line.
pub proof fn lemma_line_row_plain(st: BoxStyle, w: nat, line: Seq<char>)
    requires
        coded_style(st),
        no_esc(line),
        unpaired(line),
    ensures
        strip_all(line_row(st, w, line)) == plain_row(st, w, line),
{
    let bc = st.box_color@;
    let v = st.borders.vertical@;
    let tc = st.text_color@;
    let rs = st.colors.reset@;
    let n = padding(w, line.len());
    let left = bc + v + seq![' '];
    let mid = styled(line, tc, st.styling, rs);
    let right = rs + bc + repeat_char(' ', n) + v + rs + seq!['\n'];
    lemma_styled_unpaired(line, tc, st.styling, rs);
    lemma_row_head(bc, v);
    lemma_row_text(tc, line, rs);
    lemma_row_tail(bc, v, rs, n);
    lemma_strip_cat(left, mid);
    lemma_strip_cat(left + mid, right);
    assert(line_row(st, w, line) == left + mid + right);
    let plain = plain_row(st, w, line);
    assert(strip(left + mid + right) =~= plain);
    lemma_plain_row_no_esc(st, w, line);
    lemma_no_esc(plain);
    lemma_strip_all_once(left + mid + right);
}

/// The blank row of an empty paragraph, stripped, is the border, a space,
/// `w - 4` spaces and the border.
pub proof fn lemma_blank_row_plain(st: BoxStyle, w: nat)
    requires
        coded_style(st),
    ensures
        strip_all(blank_row(st, w)) == plain_row(st, w, Seq::empty()),
{
    let bc = st.box_color@;
    let v = st.borders.vertical@;
    let rs = st.colors.reset@;
    let sp = seq![' '];
    let nl = seq!['\n'];
    let pad = repeat_char(' ', padding(w, 0));
    lemma_codes(bc);
    lemma_codes(rs);
    lemma_no_esc(v);
    lemma_no_esc(sp);
    lemma_no_esc(nl);
    lemma_spaces(padding(w, 0));
    lemma_no_esc(pad);
    let a1 = bc + v;
    lemma_strip_cat(bc, v);
    let a2 = a1 + sp;
    lemma_strip_cat(a1, sp);
    let a3 = a2 + pad;
    lemma_strip_cat(a2, pad);
    let a4 = a3 + v;
    lemma_strip_cat(a3, v);
    let a5 = a4 + rs;
    lemma_strip_cat(a4, rs);
    let a6 = a5 + nl;
    lemma_strip_cat(a5, nl);
    assert(blank_row(st, w) =~= a6);
    let plain = plain_row(st, w, Seq::empty());
    assert(strip(a6) =~= plain);
    assert(no_esc(plain));
    lemma_no_esc(plain);
    lemma_strip_all_once(a6);
}


proof fn lemma_quiet_plain(s: Seq<char>)
    requires
        quiet(s),
    ensures
        no_esc(s),
        unpaired(s),
{
    assert forall|i: int| 0 <= i < s.len() implies s[i] != ESC by {
        assert(quiet(s));
    }
}

proof fn lemma_quiet_parts(s: Seq<char>, k: int)
    requires
        quiet(s),
        0 <= k <= s.len(),
    ensures
        quiet(s.skip(k)),
        quiet(s.take(k)),
{
    assert forall|i: int| 0 <= i < s.skip(k).len() implies {
        let c = #[trigger] s.skip(k)[i];
        c != ESC && c != '*' && c != '_' && c != '~' && c != '@'
    } by {
        assert(s.skip(k)[i] == s[k + i]);
    }
    assert forall|i: int| 0 <= i < s.take(k).len() implies {
        let c = #[trigger] s.take(k)[i];
        c != ESC && c != '*' && c != '_' && c != '~' && c != '@'
    } by {
        assert(s.take(k)[i] == s[i]);
    }
}

proof fn lemma_quiet_join(a: Seq<char>, b: Seq<char>)
    requires
        quiet(a),
        quiet(b),
    ensures
        quiet(a + b),
{
    assert forall|i: int| 0 <= i < (a + b).len() implies {
        let c = #[trigger] (a + b)[i];
        c != ESC && c != '*' && c != '_' && c != '~' && c != '@'
    } by {
        if i < a.len() {
            assert((a + b)[i] == a[i]);
        } else {
            assert((a + b)[i] == b[i - a.len()]);
        }
    }
}

proof fn lemma_chunks_quiet(w: Seq<char>, max: nat)
    requires
        quiet(w),
    ensures
        forall|k: int| 0 <= k < chunks(w, max).len() ==> quiet(#[trigger] chunks(w, max)[k]),
    decreases w.len(),
{
    let c = chunks(w, max);
    if max == 0 || w.len() <= max {
        assert forall|k: int| 0 <= k < c.len() implies quiet(#[trigger] c[k]) by {
            assert(c[k] == w);
        }
    } else {
        lemma_quiet_parts(w, max as int);
        lemma_chunks_quiet(w.skip(max as int), max);
        assert forall|k: int| 0 <= k < c.len() implies quiet(#[trigger] c[k]) by {
            if k == 0 {
                assert(c[0] == w.take(max as int));
            } else {
                assert(c[k] == chunks(w.skip(max as int), max)[k - 1]);
            }
        }
    }
}

proof fn lemma_words_quiet(s: Seq<char>, cur: Seq<char>)
    requires
        quiet(s),
        quiet(cur),
    ensures
        forall|k: int| 0 <= k < words_from(s, cur).len() ==> quiet(#[trigger] words_from(s, cur)[k]),
    decreases s.len(),
{
    let r = words_from(s, cur);
    if s.len() == 0 {
        assert forall|k: int| 0 <= k < r.len() implies quiet(#[trigger] r[k]) by {
            assert(r[k] == cur);
        }
    } else {
        lemma_quiet_parts(s, 1);
        if is_space(s[0]) {
            assert(quiet(Seq::<char>::empty()));
            lemma_words_quiet(s.skip(1), Seq::empty());
            let t = words_from(s.skip(1), Seq::empty());
            assert forall|k: int| 0 <= k < r.len() implies quiet(#[trigger] r[k]) by {
                if k < pending(cur).len() {
                    assert(r[k] == cur);
                } else {
                    assert(r[k] == t[k - pending(cur).len()]);
                }
            }
        } else {
            lemma_quiet_parts(s, 1);
            lemma_quiet_join(cur, s.take(1));
            assert(cur.push(s[0]) =~= cur + s.take(1));
            lemma_words_quiet(s.skip(1), cur.push(s[0]));
            let t = words_from(s.skip(1), cur.push(s[0]));
            assert forall|k: int| 0 <= k < r.len() implies quiet(#[trigger] r[k]) by {
                assert(r[k] == t[k]);
            }
        }
    }
}

proof fn lemma_wrap_quiet(ws: Seq<Seq<char>>, max: nat, cur: Seq<char>)
    requires
        forall|k: int| 0 <= k < ws.len() ==> quiet(#[trigger] ws[k]),
        quiet(cur),
    ensures
        forall|k: int| 0 <= k < wrap_words(ws, max, cur).len() ==> quiet(#[trigger] wrap_words(ws, max, cur)[k]),
    decreases ws.len(),
{
    let r = wrap_words(ws, max, cur);
    if ws.len() == 0 {
        assert forall|k: int| 0 <= k < r.len() implies quiet(#[trigger] r[k]) by {
            assert(r[k] == cur);
        }
    } else {
        let w = ws[0];
        let rest = ws.skip(1);
        assert(quiet(w));
        assert forall|k: int| 0 <= k < rest.len() implies quiet(#[trigger] rest[k]) by {
            assert(rest[k] == ws[k + 1]);
        }
        let e = Seq::<char>::empty();
        assert(quiet(e));
        if w.len() > max {
            lemma_chunks_quiet(w, max);
            lemma_wrap_quiet(rest, max, e);
            let a = pending(cur);
            let b = chunks(w, max);
            let c = wrap_words(rest, max, e);
            assert(r == a + b + c);
            assert forall|k: int| 0 <= k < r.len() implies quiet(#[trigger] r[k]) by {
                if k < a.len() {
                    assert(r[k] == cur);
                } else if k < a.len() + b.len() {
                    assert(r[k] == b[k - a.len()]);
                } else {
                    assert(r[k] == c[k - a.len() - b.len()]);
                }
            }
        } else if cur.len() == 0 {
            lemma_wrap_quiet(rest, max, w);
            let c = wrap_words(rest, max, w);
            assert forall|k: int| 0 <= k < r.len() implies quiet(#[trigger] r[k]) by {
                assert(r[k] == c[k]);
            }
        } else if cur.len() + 1 + w.len() <= max {
            let joined = cur + seq![' '] + w;
            assert(quiet(seq![' '])) by {
                assert(seq![' '][0] == ' ');
            }
            lemma_quiet_join(cur, seq![' ']);
            lemma_quiet_join(cur + seq![' '], w);
            lemma_wrap_quiet(rest, max, joined);
            let c = wrap_words(rest, max, joined);
            assert forall|k: int| 0 <= k < r.len() implies quiet(#[trigger] r[k]) by {
                assert(r[k] == c[k]);
            }
        } else {
            lemma_wrap_quiet(rest, max, w);
            let c = wrap_words(rest, max, w);
            assert(r == seq![cur] + c);
            assert forall|k: int| 0 <= k < r.len() implies quiet(#[trigger] r[k]) by {
                if k > 0 {
                    assert(r[k] == c[k - 1]);
                }
            }
        }
    }
}

/// For every paragraph without escape or marker characters, each content
/// row drawn for it in a box `w` wide reads, once its escape sequences are
/// removed, as border, space, exactly `w - 4` columns of text and padding,
/// border (the box colors being escape codes).
pub proof fn lemma_content_rows_width(st: BoxStyle, w: nat, p: Seq<char>)
    requires
        w >= 5,
        coded_style(st),
        quiet(p),
    ensures
        forall|k: int| 0 <= k < paragraph_lines(p, padding(w, 0)).len() ==> {
            let l = #[trigger] paragraph_lines(p, padding(w, 0))[k];
            &&& strip_all(line_row(st, w, l)) == plain_row(st, w, l)
            &&& l.len() + padding(w, l.len()) == w - 4
        },
        strip_all(blank_row(st, w)) == plain_row(st, w, Seq::empty()),
        padding(w, 0) == w - 4,
{
    let max = padding(w, 0);
    let ls = paragraph_lines(p, max);
    lemma_rows_fill_width(p, w);
    assert(quiet(Seq::<char>::empty()));
    lemma_words_quiet(p, Seq::empty());
    lemma_wrap_quiet(words(p), max, Seq::empty());
    assert forall|k: int| 0 <= k < ls.len() implies {
        let l = #[trigger] ls[k];
        &&& strip_all(line_row(st, w, l)) == plain_row(st, w, l)
        &&& l.len() + padding(w, l.len()) == w - 4
    } by {
        lemma_quiet_plain(ls[k]);
        lemma_line_row_plain(st, w, ls[k]);
    }
    lemma_blank_row_plain(st, w);
}

proof fn lemma_words_unbroken(s: Seq<char>, cur: Seq<char>)
    requires
        forall|i: int| 0 <= i < s.len() ==> !is_space(#[trigger] s[i]),
        cur.len() + s.len() > 0,
    ensures
        words_from(s, cur) == seq![cur + s],
    decreases s.len(),
{
    if s.len() == 0 {
        assert(cur + s =~= cur);
    } else {
        assert(!is_space(s[0]));
        assert forall|i: int| 0 <= i < s.skip(1).len() implies !is_space(#[trigger] s.skip(1)[i]) by {
            assert(s.skip(1)[i] == s[i + 1]);
        }
        lemma_words_unbroken(s.skip(1), cur.push(s[0]));
        assert(cur.push(s[0]) + s.skip(1) =~= cur + s);
    }
}

/// A word longer than the inner width `w - 4`, without white space, escape
/// or marker characters, alone in its paragraph, is drawn as the rows of its
/// pieces: each piece holds one to `w - 4` characters, the pieces put back
/// together give the word, and each row, stripped of escape sequences, is
/// border, space, the piece padded to `w - 4` columns, border.
pub proof fn lemma_long_word_rows(st: BoxStyle, w: nat, word: Seq<char>)
    requires
        w >= 5,
        coded_style(st),
        quiet(word),
        word.len() > w - 4,
        forall|i: int| 0 <= i < word.len() ==> !is_space(#[trigger] word[i]),
    ensures
        paragraph_lines(word, padding(w, 0)) == chunks(word, padding(w, 0)),
        chunks(word, padding(w, 0)).flatten() == word,
        forall|k: int| 0 <= k < chunks(word, padding(w, 0)).len() ==> {
            let c = #[trigger] chunks(word, padding(w, 0))[k];
            &&& 0 < c.len() <= w - 4
            &&& strip_all(line_row(st, w, c)) == plain_row(st, w, c)
            &&& c.len() + padding(w, c.len()) == w - 4
        },
{
    let max = padding(w, 0);
    let e = Seq::<char>::empty();
    lemma_words_unbroken(word, e);
    assert(e + word =~= word);
    let ws = words(word);
    assert(ws == seq![word]);
    assert(ws.skip(1) =~= Seq::<Seq<char>>::empty());
    assert(pending(e) =~= Seq::<Seq<char>>::empty());
    assert(wrap_words(ws.skip(1), max, e) == Seq::<Seq<char>>::empty());
    assert(paragraph_lines(word, max) =~= chunks(word, max));
    lemma_chunks(word, max);
    lemma_chunks_quiet(word, max);
    let cs = chunks(word, max);
    assert forall|k: int| 0 <= k < cs.len() implies {
        let c = #[trigger] cs[k];
        &&& 0 < c.len() <= w - 4
        &&& strip_all(line_row(st, w, c)) == plain_row(st, w, c)
        &&& c.len() + padding(w, c.len()) == w - 4
    } by {
        lemma_quiet_plain(cs[k]);
        lemma_line_row_plain(st, w, cs[k]);
    }
}

} // verus!
