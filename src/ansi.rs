//! Removal of terminal escape sequences of the form `ESC [ <params> m`,
//! where the parameters are decimal digits and semicolons.
use vstd::prelude::*;

verus! {

/// The escape character that opens every sequence.
pub const ESC: char = '\x1b';

/// A character allowed between `ESC [` and the closing `m`.
pub open spec fn is_param_char(c: char) -> bool {
    ('0' <= c && c <= '9') || c == ';'
}

/// Length of the run of parameter characters that starts at `k`.
pub open spec fn param_run(s: Seq<char>, k: int) -> nat
    decreases s.len() - k,
{
    if 0 <= k < s.len() && is_param_char(s[k]) {
        1 + param_run(s, k + 1)
    } else {
        0
    }
}

/// Index of the character that would close a sequence opened at `i`.
pub open spec fn escape_end(s: Seq<char>, i: int) -> int {
    i + 2 + param_run(s, i + 2)
}

/// A complete escape sequence starts at index `i` of `s`.
pub open spec fn escape_at(s: Seq<char>, i: int) -> bool {
    &&& 0 <= i
    &&& i + 1 < s.len()
    &&& s[i] == ESC
    &&& s[i + 1] == '['
    &&& escape_end(s, i) < s.len()
    &&& s[escape_end(s, i)] == 'm'
}

/// `s` holds no complete escape sequence.
pub open spec fn escape_free(s: Seq<char>) -> bool {
    forall|i: int| !#[trigger] escape_at(s, i)
}

/// What is left of `s[i..]` once its sequences are removed, scanning left to
/// right and resuming after each removed sequence.
pub open spec fn strip_from(s: Seq<char>, i: int) -> Seq<char>
    decreases s.len() - i,
{
    if i < 0 || i >= s.len() {
        Seq::empty()
    } else if escape_at(s, i) {
        strip_from(s, escape_end(s, i) + 1)
    } else {
        seq![s[i]] + strip_from(s, i + 1)
    }
}

/// One removal pass over `s`: each escape sequence met scanning left to
/// right is removed. A pass can join an `ESC` before a removed sequence with
/// a `[...m` after it, so its result may hold a new sequence.
pub open spec fn strip(s: Seq<char>) -> Seq<char> {
    strip_from(s, 0)
}

/// `s` with removal passes repeated until one changes nothing: no escape
/// sequence is left.
pub open spec fn strip_all(s: Seq<char>) -> Seq<char>
    decreases s.len() via strip_all_decreases
{
    if strip(s) == s {
        s
    } else {
        strip_all(strip(s))
    }
}

#[via_fn]
proof fn strip_all_decreases(s: Seq<char>) {
    lemma_strip_shorter(s);
}

proof fn lemma_strip_from_len(s: Seq<char>, i: int)
    requires
        0 <= i <= s.len(),
    ensures
        strip_from(s, i).len() <= s.len() - i,
        strip_from(s, i).len() == s.len() - i ==> strip_from(s, i) == s.skip(i),
        strip_from(s, i) == s.skip(i) ==> forall|j: int| i <= j ==> !#[trigger] escape_at(s, j),
    decreases s.len() - i,
{
    if i == s.len() {
        assert(s.skip(i) =~= Seq::<char>::empty());
    } else if escape_at(s, i) {
        lemma_strip_from_len(s, escape_end(s, i) + 1);
    } else {
        lemma_strip_from_len(s, i + 1);
        assert(seq![s[i]] + s.skip(i + 1) =~= s.skip(i));
        if strip_from(s, i) == s.skip(i) {
            assert(strip_from(s, i + 1) =~= s.skip(i + 1)) by {
                assert(strip_from(s, i) == seq![s[i]] + strip_from(s, i + 1));
                assert(strip_from(s, i + 1) =~= strip_from(s, i).skip(1));
                assert(s.skip(i).skip(1) =~= s.skip(i + 1));
            }
        }
    }
}

/// A pass that changes its input makes it shorter; one that changes nothing
/// meets no escape sequence.
pub proof fn lemma_strip_shorter(s: Seq<char>)
    ensures
        strip(s).len() <= s.len(),
        strip(s) != s ==> strip(s).len() < s.len(),
        strip(s) == s ==> escape_free(s),
{
    lemma_strip_from_len(s, 0);
    assert(s.skip(0) =~= s);
}

/// Repeated stripping ends in text that holds no escape sequence and that a
/// further pass leaves as it is.
pub proof fn lemma_strip_all_clean(s: Seq<char>)
    ensures
        escape_free(strip_all(s)),
        strip(strip_all(s)) == strip_all(s),
    decreases s.len(),
{
    lemma_strip_shorter(s);
    if strip(s) != s {
        lemma_strip_all_clean(strip(s));
    }
}

/// Relies on `regex::Regex::replace_all` with the pattern `\x1b\[[0-9;]*m`:
/// the leftmost matches, taken one after the other without overlap, are
/// replaced by nothing, and the text between them is kept in order.
#[verifier::external_body]
fn remove_escape_matches(s: &str) -> (r: String)
    ensures
        r@ == strip(s@),
{
    let re = regex::Regex::new(r"\x1b\[[0-9;]*m").unwrap();
    re.replace_all(s, "").to_string()
}

/// Removes every escape sequence from `s`, also those that removing others
/// brings together.
pub fn strip_ansi_codes(s: &str) -> (r: String)
    ensures
        r@ == strip_all(s@),
        escape_free(r@),
{
    let mut r = remove_escape_matches(s);
    proof {
        lemma_strip_all_after_pass(s@);
    }
    loop
        invariant
            strip_all(s@) == strip_all(r@),
        decreases r@.len(),
    {
        let next = remove_escape_matches(r.as_str());
        proof {
            lemma_strip_shorter(r@);
            lemma_strip_all_clean(r@);
            lemma_strip_all_after_pass(r@);
        }
        if next == r {
            return r;
        }
        r = next;
    }
}

proof fn lemma_strip_from_clean(s: Seq<char>, i: int)
    requires
        escape_free(s),
        0 <= i <= s.len(),
    ensures
        strip_from(s, i) == s.subrange(i, s.len() as int),
    decreases s.len() - i,
{
    if i < s.len() {
        assert(!escape_at(s, i));
        lemma_strip_from_clean(s, i + 1);
        assert(seq![s[i]] + s.subrange(i + 1, s.len() as int) =~= s.subrange(i, s.len() as int));
    } else {
        assert(s.subrange(i, s.len() as int) =~= Seq::<char>::empty());
    }
}

/// Stripping text that holds no escape sequence leaves it as it is.
pub proof fn lemma_strip_clean(s: Seq<char>)
    requires
        escape_free(s),
    ensures
        strip(s) == s,
{
    lemma_strip_from_clean(s, 0);
    assert(s.subrange(0, s.len() as int) =~= s);
}

/// Stripping is idempotent: stripping the stripped text changes nothing.
pub proof fn lemma_strip_idempotent(s: Seq<char>)
    ensures
        strip_all(strip_all(s)) == strip_all(s),
{
    lemma_strip_all_clean(s);
}

/// Repeated stripping gives what one pass gives whenever that pass leaves
/// no escape sequence.
pub proof fn lemma_strip_all_once(s: Seq<char>)
    requires
        escape_free(strip(s)),
    ensures
        strip_all(s) == strip(s),
{
    lemma_strip_clean(strip(s));
    assert(strip_all(strip(s)) == strip(s));
}

/// Stripping all can be done after a first pass.
pub proof fn lemma_strip_all_after_pass(s: Seq<char>)
    ensures
        strip_all(s) == strip_all(strip(s)),
{
}

/// Every escape character in `s` opens a complete sequence.
pub open spec fn closed(s: Seq<char>) -> bool {
    forall|i: int| #![trigger s[i]] 0 <= i < s.len() && s[i] == ESC ==> escape_at(s, i)
}

/// `s` is made of complete escape sequences only.
pub open spec fn only_codes(s: Seq<char>) -> bool {
    closed(s) && strip(s).len() == 0
}

/// A character that never stands inside an escape sequence.
pub open spec fn plain_char(c: char) -> bool {
    c != ESC && c != '[' && c != 'm' && !is_param_char(c)
}

proof fn lemma_param_run_shift(a: Seq<char>, b: Seq<char>, k: int)
    requires
        0 <= k,
    ensures
        param_run(a + b, a.len() + k) == param_run(b, k),
    decreases b.len() - k,
{
    if k < b.len() {
        assert((a + b)[a.len() + k] == b[k]);
        lemma_param_run_shift(a, b, k + 1);
    }
}

/// A run of parameter characters that ends inside `a` is the same in `a + b`.
pub proof fn lemma_param_run_prefix(a: Seq<char>, b: Seq<char>, k: int)
    requires
        0 <= k <= a.len(),
        k + param_run(a, k) < a.len() || k + param_run(a + b, k) < a.len(),
    ensures
        param_run(a + b, k) == param_run(a, k),
    decreases a.len() - k,
{
    if k < a.len() {
        assert((a + b)[k] == a[k]);
        if is_param_char(a[k]) {
            lemma_param_run_prefix(a, b, k + 1);
        }
    }
}

proof fn lemma_param_run_chars(s: Seq<char>, k: int, q: int)
    requires
        0 <= k <= q < k + param_run(s, k),
    ensures
        is_param_char(s[q]),
    decreases q - k,
{
    if q > k {
        lemma_param_run_chars(s, k + 1, q);
    }
}

proof fn lemma_escape_shift(a: Seq<char>, b: Seq<char>, j: int)
    requires
        0 <= j,
    ensures
        escape_at(a + b, a.len() + j) == escape_at(b, j),
        escape_end(a + b, a.len() + j) == a.len() + escape_end(b, j),
{
    lemma_param_run_shift(a, b, j + 2);
}

proof fn lemma_escape_prefix(a: Seq<char>, b: Seq<char>, i: int)
    requires
        escape_at(a, i),
    ensures
        escape_at(a + b, i),
        escape_end(a + b, i) == escape_end(a, i),
{
    lemma_param_run_prefix(a, b, i + 2);
}

/// Inside a sequence stand only `[`, parameter characters and the final `m`.
pub proof fn lemma_inside_sequence(s: Seq<char>, p: int, q: int)
    requires
        escape_at(s, p),
        p < q <= escape_end(s, p),
    ensures
        !plain_char(s[q]),
{
    if q >= p + 2 && q < escape_end(s, p) {
        lemma_param_run_chars(s, p + 2, q);
    }
}

proof fn lemma_strip_from_shift(a: Seq<char>, b: Seq<char>, j: int)
    requires
        0 <= j,
    ensures
        strip_from(a + b, a.len() + j) == strip_from(b, j),
    decreases b.len() - j,
{
    if j < b.len() {
        lemma_escape_shift(a, b, j);
        assert((a + b)[a.len() + j] == b[j]);
        if escape_at(b, j) {
            lemma_strip_from_shift(a, b, escape_end(b, j) + 1);
        } else {
            lemma_strip_from_shift(a, b, j + 1);
        }
    }
}

proof fn lemma_strip_from_closed_prefix(a: Seq<char>, b: Seq<char>, i: int)
    requires
        closed(a),
        0 <= i <= a.len(),
    ensures
        strip_from(a + b, i) == strip_from(a, i) + strip(b),
    decreases a.len() - i,
{
    if i == a.len() {
        lemma_strip_from_shift(a, b, 0);
        assert(Seq::<char>::empty() + strip(b) =~= strip(b));
    } else {
        assert((a + b)[i] == a[i]);
        if a[i] == ESC {
            assert(escape_at(a, i));
            lemma_escape_prefix(a, b, i);
            lemma_strip_from_closed_prefix(a, b, escape_end(a, i) + 1);
        } else {
            lemma_strip_from_closed_prefix(a, b, i + 1);
            assert(seq![a[i]] + strip_from(a, i + 1) + strip(b) =~= seq![a[i]] + (strip_from(a, i + 1)
                + strip(b)));
        }
    }
}

/// Stripping a concatenation whose first part is closed strips each part.
pub proof fn lemma_strip_append(a: Seq<char>, b: Seq<char>)
    requires
        closed(a),
    ensures
        strip(a + b) == strip(a) + strip(b),
{
    lemma_strip_from_closed_prefix(a, b, 0);
}

/// Two closed parts make a closed whole.
pub proof fn lemma_closed_append(a: Seq<char>, b: Seq<char>)
    requires
        closed(a),
        closed(b),
    ensures
        closed(a + b),
{
    assert forall|i: int| #![trigger (a + b)[i]] 0 <= i < (a + b).len() && (a + b)[i] == ESC implies escape_at(a + b, i) by {
        if i < a.len() {
            assert(a[i] == ESC);
            lemma_escape_prefix(a, b, i);
        } else {
            assert(b[i - a.len()] == ESC);
            lemma_escape_shift(a, b, i - a.len());
        }
    }
}

/// What follows any position of a closed text is closed.
pub proof fn lemma_closed_suffix(s: Seq<char>, q: int)
    requires
        closed(s),
        0 <= q <= s.len(),
    ensures
        closed(s.skip(q)),
{
    let a = s.take(q);
    let b = s.skip(q);
    assert(a + b =~= s);
    assert forall|j: int| #![trigger b[j]] 0 <= j < b.len() && b[j] == ESC implies escape_at(b, j) by {
        assert(s[q + j] == ESC);
        lemma_escape_shift(a, b, j);
    }
}

/// What precedes a plain character of a closed text is closed.
pub proof fn lemma_closed_prefix(s: Seq<char>, q: int)
    requires
        closed(s),
        0 <= q <= s.len(),
        q == s.len() || plain_char(s[q]),
    ensures
        closed(s.take(q)),
{
    let a = s.take(q);
    let b = s.skip(q);
    assert(a + b =~= s);
    assert forall|p: int| #![trigger a[p]] 0 <= p < a.len() && a[p] == ESC implies escape_at(a, p) by {
        assert(s[p] == ESC);
        assert(escape_at(s, p));
        if escape_end(s, p) >= q {
            lemma_inside_sequence(s, p, q);
        }
        lemma_param_run_prefix(a, b, p + 2);
    }
}

/// A complete sequence in front disappears when stripping.
pub proof fn lemma_strip_code_front(t: Seq<char>, x: Seq<char>)
    requires
        escape_at(t, 0),
        escape_end(t, 0) == t.len() - 1,
    ensures
        strip(t + x) == strip(x),
        strip(t).len() == 0,
{
    lemma_escape_prefix(t, x, 0);
    lemma_strip_from_shift(t, x, 0);
    lemma_strip_from_shift(t, Seq::<char>::empty(), 0);
    assert(t + Seq::<char>::empty() =~= t);
}

/// A character that opens no sequence is kept when stripping.
pub proof fn lemma_strip_char_front(c: char, x: Seq<char>)
    requires
        c != ESC,
    ensures
        strip(seq![c] + x) == seq![c] + strip(x),
{
    assert((seq![c] + x)[0] == c);
    lemma_strip_from_shift(seq![c], x, 0);
}

/// Stripping keeps no character that the input lacks.
pub proof fn lemma_strip_lacks(s: Seq<char>, c: char, i: int)
    requires
        forall|q: int| 0 <= q < s.len() ==> s[q] != c,
    ensures
        forall|q: int| 0 <= q < strip_from(s, i).len() ==> strip_from(s, i)[q] != c,
    decreases s.len() - i,
{
    if !(0 <= i < s.len()) {
        assert(strip_from(s, i).len() == 0);
    } else {
        if escape_at(s, i) {
            lemma_strip_lacks(s, c, escape_end(s, i) + 1);
            let r = strip_from(s, i);
            assert(r == strip_from(s, escape_end(s, i) + 1));
            assert forall|q: int| 0 <= q < r.len() implies r[q] != c by {
                assert(r[q] == strip_from(s, escape_end(s, i) + 1)[q]);
            }
        } else {
            lemma_strip_lacks(s, c, i + 1);
            let r = strip_from(s, i);
            assert(r == seq![s[i]] + strip_from(s, i + 1));
            assert forall|q: int| 0 <= q < r.len() implies r[q] != c by {
                if q > 0 {
                    assert(r[q] == strip_from(s, i + 1)[q - 1]);
                } else {
                    assert(r[0] == s[i]);
                }
            }
        }
    }
}

} // verus!
