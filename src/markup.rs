//! Inline markup: `**bold**`, `*italic*`, `_underline_`, `~strike~` and
//! `@dim@`, each resolved by one left-to-right pass that pairs a marker
//! with the next occurrence of the same marker.
use vstd::prelude::*;
use crate::ansi::{
    ESC, closed, escape_at, escape_end, is_param_char, lemma_closed_append, lemma_closed_prefix,
    lemma_closed_suffix, lemma_inside_sequence, lemma_param_run_prefix, lemma_strip_append, lemma_strip_char_front,
    lemma_strip_code_front, lemma_strip_lacks, only_codes, param_run, plain_char, strip, strip_all, lemma_strip_all_after_pass,
};
use crate::text::{chars_of, push_all, push_range, push_str, string_of};

verus! {

/// `m` occurs in `s` at index `i`.
pub open spec fn occurs_at(s: Seq<char>, m: Seq<char>, i: int) -> bool {
    0 <= i && i + m.len() <= s.len() && s.subrange(i, i + m.len()) == m
}

/// The first index at or after `k` where `m` occurs in `s`.
pub open spec fn find_from(s: Seq<char>, m: Seq<char>, k: int) -> Option<int>
    decreases s.len() - k,
{
    if k < 0 || k >= s.len() || k + m.len() > s.len() {
        None
    } else if occurs_at(s, m, k) {
        Some(k)
    } else {
        find_from(s, m, k + 1)
    }
}

pub proof fn lemma_find_from_bounds(s: Seq<char>, m: Seq<char>, k: int)
    ensures
        match find_from(s, m, k) {
            Some(i) => k <= i && occurs_at(s, m, i),
            None => true,
        },
    decreases s.len() - k,
{
    if !(k < 0 || k >= s.len() || k + m.len() > s.len()) && !occurs_at(s, m, k) {
        lemma_find_from_bounds(s, m, k + 1);
    }
}

/// One marker pass over `s[k..]`: the first occurrence of `m` is paired with
/// the next one after it; the pair is replaced by `open`, the text between,
/// and `close`, and the pass resumes after the closing marker. Once an
/// opening marker has no partner, the rest is kept as it is.
pub open spec fn pass_from(s: Seq<char>, m: Seq<char>, open: Seq<char>, close: Seq<char>, k: int) -> Seq<char>
    decreases s.len() - k via pass_from_decreases
{
    match find_from(s, m, k) {
        None => s.subrange(k, s.len() as int),
        Some(i) => match find_from(s, m, i + m.len()) {
            None => s.subrange(k, s.len() as int),
            Some(j) => if m.len() == 0 {
                s.subrange(k, s.len() as int)
            } else {
                s.subrange(k, i) + open + s.subrange(i + m.len(), j) + close
                    + pass_from(s, m, open, close, j + m.len())
            },
        },
    }
}

#[via_fn]
proof fn pass_from_decreases(s: Seq<char>, m: Seq<char>, open: Seq<char>, close: Seq<char>, k: int) {
    lemma_find_from_bounds(s, m, k);
    if let Some(i) = find_from(s, m, k) {
        lemma_find_from_bounds(s, m, i + m.len());
    }
}

/// One marker pass over the whole of `s`.
pub open spec fn pass(s: Seq<char>, m: Seq<char>, open: Seq<char>, close: Seq<char>) -> Seq<char> {
    pass_from(s, m, open, close, 0)
}

/// `ESC [ <code> m`.
pub open spec fn sgr(code: Seq<char>) -> Seq<char> {
    seq![ESC, '['] + code + seq!['m']
}

pub open spec fn bold_on() -> Seq<char> { sgr(seq!['1']) }
pub open spec fn bold_off() -> Seq<char> { sgr(seq!['2', '2']) }
pub open spec fn italic_on() -> Seq<char> { sgr(seq!['3']) }
pub open spec fn italic_off() -> Seq<char> { sgr(seq!['2', '3']) }
pub open spec fn underline_on() -> Seq<char> { sgr(seq!['4']) }
pub open spec fn underline_off() -> Seq<char> { sgr(seq!['2', '4']) }
pub open spec fn strike_on() -> Seq<char> { sgr(seq!['9']) }
pub open spec fn strike_off() -> Seq<char> { sgr(seq!['2', '9']) }
pub open spec fn dim_on() -> Seq<char> { sgr(seq!['2']) }
pub open spec fn dim_off() -> Seq<char> { sgr(seq!['2', '2']) }

/// What replaces an opening marker: the base color and the style's code
/// when styling is on, nothing when it is off.
pub open spec fn opening(styling: bool, color: Seq<char>, code: Seq<char>) -> Seq<char> {
    if styling { color + code } else { Seq::empty() }
}

/// What replaces a closing marker.
pub open spec fn closing(styling: bool, code: Seq<char>) -> Seq<char> {
    if styling { code } else { Seq::empty() }
}

/// The five passes, in their fixed order: bold, italic, underline,
/// strikethrough, dim.
pub open spec fn markup_body(text: Seq<char>, color: Seq<char>, styling: bool) -> Seq<char> {
    let b = pass(text, seq!['*', '*'], opening(styling, color, bold_on()), closing(styling, bold_off()));
    let i = pass(b, seq!['*'], opening(styling, color, italic_on()), closing(styling, italic_off()));
    let u = pass(i, seq!['_'], opening(styling, color, underline_on()), closing(styling, underline_off()));
    let t = pass(u, seq!['~'], opening(styling, color, strike_on()), closing(styling, strike_off()));
    pass(t, seq!['@'], opening(styling, color, dim_on()), closing(styling, dim_off()))
}

/// The rendered text: the base color, the processed text, and the reset code.
pub open spec fn styled(text: Seq<char>, color: Seq<char>, styling: bool, reset: Seq<char>) -> Seq<char> {
    color + markup_body(text, color, styling) + reset
}

fn occurs_at_exec(s: &Vec<char>, m: &Vec<char>, p: usize) -> (r: bool)
    requires
        p + m.len() <= s.len(),
    ensures
        r == occurs_at(s@, m@, p as int),
{
    let mut q: usize = 0;
    while q < m.len()
        invariant
            p + m.len() <= s.len(),
            q <= m.len(),
            forall|t: int| 0 <= t < q ==> s@[p + t] == m@[t],
        decreases m.len() - q,
    {
        if s[p + q] != m[q] {
            assert(s@.subrange(p as int, p + m@.len())[q as int] != m@[q as int]);
            return false;
        }
        q = q + 1;
    }
    assert(s@.subrange(p as int, p + m@.len()) =~= m@);
    true
}

fn find_exec(s: &Vec<char>, m: &Vec<char>, k: usize) -> (r: Option<usize>)
    requires
        m@.len() > 0,
    ensures
        match r {
            Some(x) => find_from(s@, m@, k as int) == Some(x as int),
            None => find_from(s@, m@, k as int) is None,
        },
{
    let mut p: usize = k;
    loop
        invariant
            k <= p,
            m@.len() > 0,
            find_from(s@, m@, k as int) == find_from(s@, m@, p as int),
        decreases s@.len() - p,
    {
        if p >= s.len() || m.len() > s.len() - p {
            return None;
        }
        if occurs_at_exec(s, m, p) {
            return Some(p);
        }
        p = p + 1;
    }
}

fn pass_exec(s: &Vec<char>, m: &Vec<char>, open: &Vec<char>, close: &Vec<char>) -> (r: Vec<char>)
    requires
        m@.len() > 0,
    ensures
        r@ == pass(s@, m@, open@, close@),
{
    let mut out: Vec<char> = Vec::new();
    let mut k: usize = 0;
    let n = s.len();
    loop
        invariant
            n == s@.len(),
            m@.len() > 0,
            k <= s@.len(),
            pass(s@, m@, open@, close@) == out@ + pass_from(s@, m@, open@, close@, k as int),
        decreases s@.len() - k,
    {
        proof {
            lemma_find_from_bounds(s@, m@, k as int);
        }
        match find_exec(s, m, k) {
            None => {
                push_range(&mut out, s, k, s.len());
                return out;
            },
            Some(i) => {
                proof {
                    lemma_find_from_bounds(s@, m@, i + m@.len());
                }
                match find_exec(s, m, i + m.len()) {
                    None => {
                        push_range(&mut out, s, k, s.len());
                        return out;
                    },
                    Some(j) => {
                        let ghost before = out@;
                        push_range(&mut out, s, k, i);
                        push_all(&mut out, open);
                        push_range(&mut out, s, i + m.len(), j);
                        push_all(&mut out, close);
                        assert(out@ =~= before + (s@.subrange(k as int, i as int) + open@
                            + s@.subrange(i + m@.len(), j as int) + close@));
                        k = j + m.len();
                    },
                }
            },
        }
    }
}

fn sgr_exec(code: &str) -> (r: Vec<char>)
    ensures
        r@ == sgr(code@),
{
    let mut v: Vec<char> = Vec::new();
    v.push(ESC);
    v.push('[');
    push_str(&mut v, code);
    v.push('m');
    assert(v@ =~= sgr(code@));
    v
}

fn one_pass(
    s: &Vec<char>,
    m: &Vec<char>,
    styling: bool,
    color: &Vec<char>,
    on: &str,
    off: &str,
) -> (r: Vec<char>)
    requires
        m@.len() > 0,
    ensures
        r@ == pass(s@, m@, opening(styling, color@, sgr(on@)), closing(styling, sgr(off@))),
{
    let mut open: Vec<char> = Vec::new();
    let mut close: Vec<char> = Vec::new();
    if styling {
        push_all(&mut open, color);
        let on_code = sgr_exec(on);
        push_all(&mut open, &on_code);
        close = sgr_exec(off);
    }
    assert(open@ =~= opening(styling, color@, sgr(on@)));
    assert(close@ =~= closing(styling, sgr(off@)));
    pass_exec(s, m, &open, &close)
}

/// Applies the markup of `text`: with styling on, each marker pair becomes
/// the base color and the style's escape code around the enclosed text; with
/// styling off, the markers of each pair are dropped. The result always
/// starts with `color` and ends with `reset`.
pub fn style_text(text: &str, color: &str, styling: bool, reset: &str) -> (r: String)
    ensures
        r@ == styled(text@, color@, styling, reset@),
{
    let s = chars_of(text);
    let c = chars_of(color);
    proof {
        reveal_strlit("1");
        reveal_strlit("22");
        reveal_strlit("3");
        reveal_strlit("23");
        reveal_strlit("4");
        reveal_strlit("24");
        reveal_strlit("9");
        reveal_strlit("29");
        reveal_strlit("2");
    }
    let m2 = vec!['*', '*'];
    let m_star = vec!['*'];
    let m_under = vec!['_'];
    let m_tilde = vec!['~'];
    let m_at = vec!['@'];
    assert(m2@ =~= seq!['*', '*']);
    assert(m_star@ =~= seq!['*']);
    assert(m_under@ =~= seq!['_']);
    assert(m_tilde@ =~= seq!['~']);
    assert(m_at@ =~= seq!['@']);
    let b = one_pass(&s, &m2, styling, &c, "1", "22");
    let i = one_pass(&b, &m_star, styling, &c, "3", "23");
    let u = one_pass(&i, &m_under, styling, &c, "4", "24");
    let t = one_pass(&u, &m_tilde, styling, &c, "9", "29");
    let d = one_pass(&t, &m_at, styling, &c, "2", "22");
    assert(seq!['1'] =~= "1"@);
    assert(seq!['2', '2'] =~= "22"@);
    assert(seq!['3'] =~= "3"@);
    assert(seq!['2', '3'] =~= "23"@);
    assert(seq!['4'] =~= "4"@);
    assert(seq!['2', '4'] =~= "24"@);
    assert(seq!['9'] =~= "9"@);
    assert(seq!['2', '9'] =~= "29"@);
    assert(seq!['2'] =~= "2"@);
    let mut out: Vec<char> = Vec::new();
    push_all(&mut out, &c);
    push_all(&mut out, &d);
    push_str(&mut out, reset);
    assert(out@ =~= styled(text@, color@, styling, reset@));
    string_of(&out)
}


proof fn lemma_find_skip(s: Seq<char>, m: Seq<char>, k: int, k2: int)
    requires
        0 <= k <= k2 <= s.len(),
        forall|p: int| k <= p < k2 ==> !occurs_at(s, m, p),
    ensures
        find_from(s, m, k) == find_from(s, m, k2),
    decreases k2 - k,
{
    if k < k2 {
        lemma_find_skip(s, m, k + 1, k2);
    }
}

proof fn lemma_find_first(s: Seq<char>, m: Seq<char>, k: int)
    requires
        0 <= k,
        m.len() > 0,
    ensures
        match find_from(s, m, k) {
            Some(i) => forall|p: int| k <= p < i ==> !occurs_at(s, m, p),
            None => forall|p: int| k <= p && 0 <= p ==> !occurs_at(s, m, p),
        },
    decreases s.len() - k,
{
    if !(k < 0 || k >= s.len() || k + m.len() > s.len()) && !occurs_at(s, m, k) {
        lemma_find_first(s, m, k + 1);
    }
}

proof fn lemma_find_shift(t: Seq<char>, r: Seq<char>, m: Seq<char>, k: int)
    requires
        0 <= k,
        m.len() > 0,
    ensures
        find_from(t + r, m, t.len() + k) == match find_from(r, m, k) {
            Some(i) => Some(t.len() + i),
            None => None::<int>,
        },
    decreases r.len() - k,
{
    let s = t + r;
    if k < r.len() && k + m.len() <= r.len() {
        assert(s.subrange(t.len() + k, t.len() + k + m.len()) =~= r.subrange(k, k + m.len()));
        if !occurs_at(r, m, k) {
            lemma_find_shift(t, r, m, k + 1);
        }
    }
}

proof fn lemma_pass_shift(t: Seq<char>, r: Seq<char>, m: Seq<char>, o: Seq<char>, c: Seq<char>, k: int)
    requires
        0 <= k <= r.len(),
        m.len() > 0,
    ensures
        pass_from(t + r, m, o, c, t.len() + k) == pass_from(r, m, o, c, k),
    decreases r.len() - k,
{
    let s = t + r;
    let n = t.len();
    lemma_find_shift(t, r, m, k);
    lemma_find_from_bounds(r, m, k);
    match find_from(r, m, k) {
        None => {
            assert(s.subrange(n + k, s.len() as int) =~= r.subrange(k, r.len() as int));
        },
        Some(i) => {
            lemma_find_shift(t, r, m, i + m.len());
            lemma_find_from_bounds(r, m, i + m.len());
            match find_from(r, m, i + m.len()) {
                None => {
                    assert(s.subrange(n + k, s.len() as int) =~= r.subrange(k, r.len() as int));
                },
                Some(j) => {
                    assert(s.subrange(n + k, n + i) =~= r.subrange(k, i));
                    assert(s.subrange(n + i + m.len(), n + j) =~= r.subrange(i + m.len(), j));
                    lemma_pass_shift(t, r, m, o, c, j + m.len());
                },
            }
        },
    }
}

proof fn lemma_pass_skip(s: Seq<char>, m: Seq<char>, o: Seq<char>, c: Seq<char>, k: int, k2: int)
    requires
        0 <= k <= k2 <= s.len(),
        m.len() > 0,
        forall|p: int| k <= p < k2 ==> !occurs_at(s, m, p),
    ensures
        pass_from(s, m, o, c, k) == s.subrange(k, k2) + pass_from(s, m, o, c, k2),
{
    lemma_find_skip(s, m, k, k2);
    lemma_find_from_bounds(s, m, k2);
    match find_from(s, m, k2) {
        None => {
            assert(s.subrange(k, s.len() as int) =~= s.subrange(k, k2) + s.subrange(k2, s.len() as int));
        },
        Some(i) => {
            assert(s.subrange(k, i) =~= s.subrange(k, k2) + s.subrange(k2, i));
            match find_from(s, m, i + m.len()) {
                None => {
                    assert(s.subrange(k, s.len() as int) =~= s.subrange(k, k2) + s.subrange(k2, s.len() as int));
                },
                Some(j) => {
                    assert(s.subrange(k, i) + o + s.subrange(i + m.len(), j) + c + pass_from(s, m, o, c, j + m.len())
                        =~= s.subrange(k, k2) + (s.subrange(k2, i) + o + s.subrange(i + m.len(), j) + c
                        + pass_from(s, m, o, c, j + m.len())));
                },
            }
        },
    }
}

/// A character `x` in front of a pass that does not match it is kept.
proof fn lemma_pass_char_front(x: char, r: Seq<char>, mc: char, o: Seq<char>, c: Seq<char>)
    requires
        x != mc,
    ensures
        pass(seq![x] + r, seq![mc], o, c) == seq![x] + pass(r, seq![mc], o, c),
{
    let s = seq![x] + r;
    assert(!occurs_at(s, seq![mc], 0)) by {
        if occurs_at(s, seq![mc], 0) {
            assert(s.subrange(0, 1)[0] == x);
        }
    }
    lemma_pass_skip(s, seq![mc], o, c, 0, 1);
    lemma_pass_shift(seq![x], r, seq![mc], o, c, 0);
    assert(s.subrange(0, 1) =~= seq![x]);
}

proof fn lemma_single_occurs(s: Seq<char>, mc: char, p: int)
    ensures
        occurs_at(s, seq![mc], p) <==> (0 <= p < s.len() && s[p] == mc),
{
    if 0 <= p < s.len() && s[p] == mc {
        assert(s.subrange(p, p + 1) =~= seq![mc]);
    }
    if occurs_at(s, seq![mc], p) {
        assert(s.subrange(p, p + 1)[0] == s[p]);
    }
}

/// Removing the pairs of a plain one-character marker commutes with
/// stripping escape sequences from a closed text.
pub proof fn lemma_pass_strip_commute(s: Seq<char>, mc: char)
    requires
        closed(s),
        plain_char(mc),
    ensures
        strip(pass(s, seq![mc], Seq::empty(), Seq::empty())) == pass(strip(s), seq![mc], Seq::empty(), Seq::empty()),
    decreases s.len(),
{
    let m = seq![mc];
    let e = Seq::<char>::empty();
    if s.len() == 0 {
        assert(pass(s, m, e, e) =~= e);
        assert(strip(s) =~= e);
        assert(strip(e) =~= e);
    } else if s[0] == ESC {
        assert(escape_at(s, 0));
        let end = escape_end(s, 0);
        let t = s.take(end + 1);
        let r = s.skip(end + 1);
        assert(t + r =~= s);
        assert forall|p: int| 0 <= p < end + 1 implies !occurs_at(s, m, p) by {
            lemma_single_occurs(s, mc, p);
            if p > 0 {
                lemma_inside_sequence(s, 0, p);
            }
        }
        lemma_pass_skip(s, m, e, e, 0, end + 1);
        lemma_pass_shift(t, r, m, e, e, 0);
        assert(s.subrange(0, end + 1) =~= t);
        assert(escape_at(t, 0) && escape_end(t, 0) == t.len() - 1) by {
            assert(param_run(t, 2) == param_run(s, 2)) by {
                assert(t + r =~= s);
                lemma_param_run_prefix(t, r, 2);
            }
        }
        lemma_strip_code_front(t, pass(r, m, e, e));
        lemma_strip_code_front(t, r);
        lemma_closed_suffix(s, end + 1);
        lemma_pass_strip_commute(r, mc);
    } else if s[0] != mc {
        let r = s.skip(1);
        assert(seq![s[0]] + r =~= s);
        lemma_pass_char_front(s[0], r, mc, e, e);
        lemma_strip_char_front(s[0], pass(r, m, e, e));
        lemma_strip_char_front(s[0], r);
        lemma_pass_char_front(s[0], strip(r), mc, e, e);
        lemma_closed_suffix(s, 1);
        lemma_pass_strip_commute(r, mc);
    } else {
        let r = s.skip(1);
        assert(seq![mc] + r =~= s);
        lemma_closed_suffix(s, 1);
        lemma_single_occurs(s, mc, 0);
        assert(find_from(s, m, 0) == Some(0int));
        lemma_find_shift(seq![mc], r, m, 0);
        lemma_find_first(r, m, 0);
        lemma_find_from_bounds(r, m, 0);
        lemma_strip_char_front(mc, r);
        match find_from(r, m, 0) {
            None => {
                assert(pass(s, m, e, e) == s.subrange(0, s.len() as int));
                assert(s.subrange(0, s.len() as int) =~= s);
                assert forall|q: int| 0 <= q < r.len() implies r[q] != mc by {
                    lemma_single_occurs(r, mc, q);
                }
                lemma_strip_lacks(r, mc, 0);
                let x = strip(s);
                assert(x == seq![mc] + strip(r));
                lemma_single_occurs(x, mc, 0);
                assert(find_from(x, m, 0) == Some(0int));
                assert forall|p: int| 1 <= p < x.len() implies !occurs_at(x, m, p) by {
                    lemma_single_occurs(x, mc, p);
                    assert(x[p] == strip(r)[p - 1]);
                }
                lemma_find_skip(x, m, 1, x.len() as int);
                assert(pass(x, m, e, e) == x.subrange(0, x.len() as int));
                assert(x.subrange(0, x.len() as int) =~= x);
            },
            Some(j) => {
                let u = r.take(j);
                let v = r.skip(j + 1);
                lemma_single_occurs(r, mc, j);
                assert(r =~= u + seq![mc] + v);
                assert(r =~= u + (seq![mc] + v));
                assert forall|q: int| 0 <= q < u.len() implies u[q] != mc by {
                    lemma_single_occurs(r, mc, q);
                }
                lemma_closed_prefix(r, j);
                lemma_closed_suffix(r, j + 1);
                // The pass over `s` keeps `u` and goes on after the closing marker.
                assert(pass(s, m, e, e) == s.subrange(0, 0) + e + s.subrange(1, 1 + j) + e
                    + pass_from(s, m, e, e, 2 + j));
                assert(s.subrange(1, 1 + j) =~= u);
                let head = s.take(2 + j);
                assert(head + v =~= s);
                lemma_pass_shift(head, v, m, e, e, 0);
                assert(pass(s, m, e, e) =~= u + pass(v, m, e, e));
                lemma_strip_append(u, pass(v, m, e, e));
                // Stripping `s` keeps both markers around the stripped `u`.
                lemma_strip_append(u, seq![mc] + v);
                lemma_strip_char_front(mc, v);
                let su = strip(u);
                let sv = strip(v);
                let n: int = su.len() as int;
                lemma_strip_lacks(u, mc, 0);
                let x = strip(s);
                assert(x =~= seq![mc] + su + seq![mc] + sv);
                lemma_single_occurs(x, mc, 0);
                assert(find_from(x, m, 0) == Some(0int));
                assert forall|p: int| 1 <= p < 1 + n implies !occurs_at(x, m, p) by {
                    lemma_single_occurs(x, mc, p);
                    assert(x[p] == su[p - 1]);
                }
                lemma_find_skip(x, m, 1, 1 + n);
                lemma_single_occurs(x, mc, 1 + n);
                assert(find_from(x, m, 1 + n) == Some(1 + n));
                assert(x.subrange(1, 1 + n) =~= su);
                let xhead = x.take(2 + n);
                assert(xhead + sv =~= x);
                lemma_pass_shift(xhead, sv, m, e, e, 0);
                assert(pass(x, m, e, e) =~= su + pass(sv, m, e, e));
                lemma_pass_strip_commute(v, mc);
            },
        }
    }
}


proof fn lemma_strip_chain(p: Seq<char>, o: Seq<char>, q: Seq<char>, c: Seq<char>, r: Seq<char>)
    requires
        closed(p),
        closed(o),
        closed(q),
        closed(c),
    ensures
        strip(p + o + q + c + r) == strip(p) + strip(o) + strip(q) + strip(c) + strip(r),
        closed(r) ==> closed(p + o + q + c + r),
{
    lemma_closed_append(p, o);
    lemma_closed_append(p + o, q);
    lemma_closed_append(p + o + q, c);
    lemma_strip_append(p + o + q + c, r);
    lemma_strip_append(p + o + q, c);
    lemma_strip_append(p + o, q);
    lemma_strip_append(p, o);
    if closed(r) {
        lemma_closed_append(p + o + q + c, r);
    }
}

proof fn lemma_empty_only_codes()
    ensures
        only_codes(Seq::<char>::empty()),
{
    assert(strip(Seq::<char>::empty()) =~= Seq::<char>::empty());
}

/// Within one pass over a closed text, the codes that replace the markers
/// are all that styling adds: the result is closed, and stripped it is the
/// result of the same pass with the markers simply dropped, stripped.
pub proof fn lemma_pass_codes(s: Seq<char>, m: Seq<char>, o: Seq<char>, c: Seq<char>, k: int)
    requires
        closed(s),
        m.len() > 0,
        plain_char(m[0]),
        only_codes(o),
        only_codes(c),
        0 <= k <= s.len(),
    ensures
        closed(pass_from(s, m, o, c, k)),
        strip(pass_from(s, m, o, c, k)) == strip(pass_from(s, m, Seq::empty(), Seq::empty(), k)),
    decreases s.len() - k,
{
    let e = Seq::<char>::empty();
    lemma_find_from_bounds(s, m, k);
    lemma_closed_suffix(s, k);
    assert(s.subrange(k, s.len() as int) =~= s.skip(k));
    match find_from(s, m, k) {
        None => {},
        Some(i) => {
            lemma_find_from_bounds(s, m, i + m.len());
            match find_from(s, m, i + m.len()) {
                None => {},
                Some(j) => {
                    assert(s[i] == m[0]) by {
                        assert(s.subrange(i, i + m.len())[0] == s[i]);
                    }
                    assert(s[j] == m[0]) by {
                        assert(s.subrange(j, j + m.len())[0] == s[j]);
                    }
                    let sk = s.skip(k);
                    lemma_closed_prefix(sk, i - k);
                    let p = s.subrange(k, i);
                    assert(sk.take(i - k) =~= p);
                    let si = s.skip(i + m.len());
                    lemma_closed_suffix(s, i + m.len());
                    lemma_closed_prefix(si, j - i - m.len());
                    let q = s.subrange(i + m.len(), j);
                    assert(si.take(j - i - m.len()) =~= q);
                    lemma_pass_codes(s, m, o, c, j + m.len());
                    lemma_empty_only_codes();
                    lemma_pass_codes(s, m, e, e, j + m.len());
                    let ro = pass_from(s, m, o, c, j + m.len());
                    let re = pass_from(s, m, e, e, j + m.len());
                    lemma_strip_chain(p, o, q, c, ro);
                    lemma_strip_chain(p, e, q, e, re);
                    assert(strip(o) =~= e);
                    assert(strip(c) =~= e);
                    assert(strip(e) =~= e);
                },
            }
        },
    }
}

proof fn lemma_param_run_all(code: Seq<char>, t: Seq<char>, q: int)
    requires
        t == seq![ESC, '['] + code + seq!['m'],
        forall|x: int| 0 <= x < code.len() ==> is_param_char(code[x]),
        0 <= q <= code.len(),
    ensures
        param_run(t, 2 + q) == code.len() - q,
    decreases code.len() - q,
{
    if q < code.len() {
        assert(t[2 + q] == code[q]);
        lemma_param_run_all(code, t, q + 1);
    } else {
        assert(t[2 + q] == 'm');
    }
}

/// A code `ESC [ <params> m` is made of one complete sequence.
pub proof fn lemma_sgr_only_codes(code: Seq<char>)
    requires
        forall|x: int| 0 <= x < code.len() ==> is_param_char(code[x]),
    ensures
        only_codes(sgr(code)),
{
    let t = sgr(code);
    lemma_param_run_all(code, t, 0);
    assert(escape_at(t, 0));
    assert forall|i: int| #![trigger t[i]] 0 <= i < t.len() && t[i] == ESC implies escape_at(t, i) by {
        if i > 0 && i < t.len() - 1 && i != 1 {
            assert(t[i] == code[i - 2]);
        }
    }
    lemma_strip_code_front(t, Seq::<char>::empty());
}

proof fn lemma_opening_only_codes(color: Seq<char>, code: Seq<char>)
    requires
        only_codes(color),
        forall|x: int| 0 <= x < code.len() ==> is_param_char(code[x]),
    ensures
        only_codes(opening(true, color, sgr(code))),
{
    lemma_sgr_only_codes(code);
    lemma_closed_append(color, sgr(code));
    lemma_strip_append(color, sgr(code));
    assert(strip(color) =~= Seq::<char>::empty());
    assert(strip(sgr(code)) =~= Seq::<char>::empty());
    assert(strip(color + sgr(code)) =~= Seq::<char>::empty());
}

proof fn lemma_step(x: Seq<char>, y: Seq<char>, mc: char, o: Seq<char>, c: Seq<char>)
    requires
        closed(x),
        closed(y),
        strip(x) == strip(y),
        plain_char(mc),
        only_codes(o),
        only_codes(c),
    ensures
        closed(pass(x, seq![mc], o, c)),
        closed(pass(y, seq![mc], Seq::empty(), Seq::empty())),
        strip(pass(x, seq![mc], o, c)) == strip(pass(y, seq![mc], Seq::empty(), Seq::empty())),
{
    let e = Seq::<char>::empty();
    lemma_empty_only_codes();
    lemma_pass_codes(x, seq![mc], o, c, 0);
    lemma_pass_codes(y, seq![mc], e, e, 0);
    lemma_pass_strip_commute(x, mc);
    lemma_pass_strip_commute(y, mc);
}

/// Turning styling on or off changes only escape codes: for a text whose
/// escape characters each open a complete sequence, and a base color made of
/// complete sequences, both renderings are the same once stripped.
pub proof fn lemma_styling_changes_only_codes(text: Seq<char>, color: Seq<char>, reset: Seq<char>)
    requires
        closed(text),
        only_codes(color),
    ensures
        strip(styled(text, color, true, reset)) == strip(styled(text, color, false, reset)),
        strip_all(styled(text, color, true, reset)) == strip_all(styled(text, color, false, reset)),
{
    let e = Seq::<char>::empty();
    lemma_empty_only_codes();
    assert(forall|x: int| 0 <= x < seq!['1'].len() ==> is_param_char(seq!['1'][x]));
    assert(forall|x: int| 0 <= x < seq!['2', '2'].len() ==> is_param_char(seq!['2', '2'][x]));
    assert(forall|x: int| 0 <= x < seq!['3'].len() ==> is_param_char(seq!['3'][x]));
    assert(forall|x: int| 0 <= x < seq!['2', '3'].len() ==> is_param_char(seq!['2', '3'][x]));
    assert(forall|x: int| 0 <= x < seq!['4'].len() ==> is_param_char(seq!['4'][x]));
    assert(forall|x: int| 0 <= x < seq!['2', '4'].len() ==> is_param_char(seq!['2', '4'][x]));
    assert(forall|x: int| 0 <= x < seq!['9'].len() ==> is_param_char(seq!['9'][x]));
    assert(forall|x: int| 0 <= x < seq!['2', '9'].len() ==> is_param_char(seq!['2', '9'][x]));
    assert(forall|x: int| 0 <= x < seq!['2'].len() ==> is_param_char(seq!['2'][x]));
    lemma_opening_only_codes(color, seq!['1']);
    lemma_opening_only_codes(color, seq!['3']);
    lemma_opening_only_codes(color, seq!['4']);
    lemma_opening_only_codes(color, seq!['9']);
    lemma_opening_only_codes(color, seq!['2']);
    lemma_sgr_only_codes(seq!['2', '2']);
    lemma_sgr_only_codes(seq!['2', '3']);
    lemma_sgr_only_codes(seq!['2', '4']);
    lemma_sgr_only_codes(seq!['2', '9']);
    assert(only_codes(opening(true, color, bold_on())));
    assert(only_codes(closing(true, bold_off())));
    assert(only_codes(opening(true, color, italic_on())));
    assert(only_codes(closing(true, italic_off())));
    assert(only_codes(opening(true, color, underline_on())));
    assert(only_codes(closing(true, underline_off())));
    assert(only_codes(opening(true, color, strike_on())));
    assert(only_codes(closing(true, strike_off())));
    assert(only_codes(opening(true, color, dim_on())));
    assert(only_codes(closing(true, dim_off())));

    let bm = seq!['*', '*'];
    let x1 = pass(text, bm, opening(true, color, bold_on()), closing(true, bold_off()));
    let y1 = pass(text, bm, e, e);
    lemma_pass_codes(text, bm, opening(true, color, bold_on()), closing(true, bold_off()), 0);
    lemma_pass_codes(text, bm, e, e, 0);

    let x2 = pass(x1, seq!['*'], opening(true, color, italic_on()), closing(true, italic_off()));
    let y2 = pass(y1, seq!['*'], e, e);
    lemma_step(x1, y1, '*', opening(true, color, italic_on()), closing(true, italic_off()));
    let x3 = pass(x2, seq!['_'], opening(true, color, underline_on()), closing(true, underline_off()));
    let y3 = pass(y2, seq!['_'], e, e);
    lemma_step(x2, y2, '_', opening(true, color, underline_on()), closing(true, underline_off()));
    let x4 = pass(x3, seq!['~'], opening(true, color, strike_on()), closing(true, strike_off()));
    let y4 = pass(y3, seq!['~'], e, e);
    lemma_step(x3, y3, '~', opening(true, color, strike_on()), closing(true, strike_off()));
    let x5 = pass(x4, seq!['@'], opening(true, color, dim_on()), closing(true, dim_off()));
    let y5 = pass(y4, seq!['@'], e, e);
    lemma_step(x4, y4, '@', opening(true, color, dim_on()), closing(true, dim_off()));

    assert(markup_body(text, color, true) == x5);
    assert(markup_body(text, color, false) == y5);
    lemma_closed_append(color, x5);
    lemma_closed_append(color, y5);
    lemma_strip_append(color + x5, reset);
    lemma_strip_append(color + y5, reset);
    lemma_strip_append(color, x5);
    lemma_strip_append(color, y5);
    assert(strip(color) =~= e);
    lemma_strip_all_after_pass(styled(text, color, true, reset));
    lemma_strip_all_after_pass(styled(text, color, false, reset));
}


/// `c` occurs at most once in `s`.
pub open spec fn at_most_one(s: Seq<char>, c: char) -> bool {
    forall|i: int, j: int| 0 <= i < j < s.len() && #[trigger] s[i] == c ==> #[trigger] s[j] != c
}

/// No marker pairs up in `s`: each marker character occurs at most once.
pub open spec fn unpaired(s: Seq<char>) -> bool {
    at_most_one(s, '*') && at_most_one(s, '_') && at_most_one(s, '~') && at_most_one(s, '@')
}

proof fn lemma_pass_single_unchanged(s: Seq<char>, mc: char, o: Seq<char>, c: Seq<char>)
    requires
        at_most_one(s, mc),
    ensures
        pass(s, seq![mc], o, c) == s,
{
    let m = seq![mc];
    lemma_find_from_bounds(s, m, 0);
    assert(s.subrange(0, s.len() as int) =~= s);
    if let Some(i) = find_from(s, m, 0) {
        lemma_find_from_bounds(s, m, i + 1);
        lemma_single_occurs(s, mc, i);
        if let Some(j) = find_from(s, m, i + 1) {
            lemma_single_occurs(s, mc, j);
            assert(s[i] == mc && s[j] == mc);
        }
    }
}

proof fn lemma_pass_double_unchanged(s: Seq<char>, o: Seq<char>, c: Seq<char>)
    requires
        at_most_one(s, '*'),
    ensures
        pass(s, seq!['*', '*'], o, c) == s,
{
    let m = seq!['*', '*'];
    lemma_find_from_bounds(s, m, 0);
    assert(s.subrange(0, s.len() as int) =~= s);
    if let Some(i) = find_from(s, m, 0) {
        assert(s.subrange(i, i + 2)[0] == s[i]);
        assert(s.subrange(i, i + 2)[1] == s[i + 1]);
        assert(s[i] == '*' && s[i + 1] == '*');
    }
}

/// Markup leaves text in which no marker pairs up as it is.
pub proof fn lemma_markup_unpaired(text: Seq<char>, color: Seq<char>, styling: bool)
    requires
        unpaired(text),
    ensures
        markup_body(text, color, styling) == text,
{
    lemma_pass_double_unchanged(text, opening(styling, color, bold_on()), closing(styling, bold_off()));
    lemma_pass_single_unchanged(text, '*', opening(styling, color, italic_on()), closing(styling, italic_off()));
    lemma_pass_single_unchanged(text, '_', opening(styling, color, underline_on()), closing(styling, underline_off()));
    lemma_pass_single_unchanged(text, '~', opening(styling, color, strike_on()), closing(styling, strike_off()));
    lemma_pass_single_unchanged(text, '@', opening(styling, color, dim_on()), closing(styling, dim_off()));
}


/// Styling text in which no marker pairs up only wraps it in the base color
/// and the reset code.
pub proof fn lemma_styled_unpaired(text: Seq<char>, color: Seq<char>, styling: bool, reset: Seq<char>)
    requires
        unpaired(text),
    ensures
        styled(text, color, styling, reset) == color + text + reset,
{
    lemma_markup_unpaired(text, color, styling);
}

} // verus!
