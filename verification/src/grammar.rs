//! Character classes and scanning primitives of the media-type grammar.
//!
//! A structural token (type, subtype, suffix, parameter key) and a parameter
//! value are both non-empty runs of token characters: ASCII letters, digits,
//! and the fixed punctuation set `! # $ & - ^ _ . +`.  Identity of tokens is
//! case-insensitive: comparisons go through `fold_char`, which lowercases
//! ASCII letters and leaves every other character unchanged.
use vstd::prelude::*;

verus! {

/// A token character: an ASCII letter or digit, or one of `! # $ & - ^ _ . +`.
pub open spec fn is_token_char(c: char) -> bool {
    let u = c as int;
    (97 <= u && u <= 122)  // 'a'..'z'
    || (65 <= u && u <= 90)  // 'A'..'Z'
    || (48 <= u && u <= 57)  // '0'..'9'
    || u == 33  // '!'
    || u == 35  // '#'
    || u == 36  // '$'
    || u == 38  // '&'
    || u == 45  // '-'
    || u == 94  // '^'
    || u == 95  // '_'
    || u == 46  // '.'
    || u == 43  // '+'
}

/// Optional whitespace: space or horizontal tab.
pub open spec fn is_ows_char(c: char) -> bool {
    c == ' ' || c == '\t'
}

/// A valid structural token or parameter value: non-empty, token characters only.
pub open spec fn valid_token(t: Seq<char>) -> bool {
    t.len() > 0 && forall|i: int| 0 <= i < t.len() ==> is_token_char(#[trigger] t[i])
}

/// ASCII-lowercases one character; everything else is unchanged.
pub open spec fn fold_char(c: char) -> char {
    let u = c as int;
    if 65 <= u && u <= 90 {
        ((u + 32) as u32) as char
    } else {
        c
    }
}

/// ASCII-lowercases a character sequence.
pub open spec fn fold_seq(s: Seq<char>) -> Seq<char> {
    s.map_values(|c: char| fold_char(c))
}

/// Lexicographic order on character sequences, by code point; a proper
/// prefix comes before every extension of it.
pub open spec fn lex_le(a: Seq<char>, b: Seq<char>) -> bool
    decreases a.len(),
{
    if a.len() == 0 {
        true
    } else if b.len() == 0 {
        false
    } else if a[0] == b[0] {
        lex_le(a.drop_first(), b.drop_first())
    } else {
        (a[0] as int) < (b[0] as int)
    }
}

/// End of the run of token characters starting at `i`: the first position at
/// or after `i` holding no token character, or the end of `s`.
pub open spec fn token_run(s: Seq<char>, i: int) -> int
    decreases s.len() - i,
{
    if i < 0 || i >= s.len() || !is_token_char(s[i]) {
        i
    } else {
        token_run(s, i + 1)
    }
}

/// End of the run of optional whitespace starting at `i`.
pub open spec fn ows_run(s: Seq<char>, i: int) -> int
    decreases s.len() - i,
{
    if i < 0 || i >= s.len() || !is_ows_char(s[i]) {
        i
    } else {
        ows_run(s, i + 1)
    }
}

/// Position of the first occurrence of `c` at or after `i`, if any.
pub open spec fn find_from(s: Seq<char>, i: int, c: char) -> Option<int>
    decreases s.len() - i,
{
    if i < 0 || i >= s.len() {
        None
    } else if s[i] == c {
        Some(i)
    } else {
        find_from(s, i + 1, c)
    }
}

/// Position of the last `'+'` in `s[from..to]`, if any.
pub open spec fn last_plus(s: Seq<char>, from: int, to: int) -> Option<int>
    decreases to - from,
{
    if to <= from || to > s.len() || from < 0 {
        None
    } else if s[to - 1] == '+' {
        Some(to - 1)
    } else {
        last_plus(s, from, to - 1)
    }
}

pub proof fn lemma_token_run(s: Seq<char>, i: int)
    requires
        0 <= i <= s.len(),
    ensures
        i <= token_run(s, i) <= s.len(),
        forall|j: int| i <= j < token_run(s, i) ==> is_token_char(#[trigger] s[j]),
        token_run(s, i) < s.len() ==> !is_token_char(s[token_run(s, i)]),
    decreases s.len() - i,
{
    if i < s.len() && is_token_char(s[i]) {
        lemma_token_run(s, i + 1);
    }
}

pub proof fn lemma_ows_run(s: Seq<char>, i: int)
    requires
        0 <= i <= s.len(),
    ensures
        i <= ows_run(s, i) <= s.len(),
        forall|j: int| i <= j < ows_run(s, i) ==> is_ows_char(#[trigger] s[j]),
        ows_run(s, i) < s.len() ==> !is_ows_char(s[ows_run(s, i)]),
    decreases s.len() - i,
{
    if i < s.len() && is_ows_char(s[i]) {
        lemma_ows_run(s, i + 1);
    }
}

/// The run of token characters starting at `i` ends exactly at `e`.
pub proof fn lemma_token_run_is(s: Seq<char>, i: int, e: int)
    requires
        0 <= i <= e <= s.len(),
        forall|j: int| i <= j < e ==> is_token_char(#[trigger] s[j]),
        e < s.len() ==> !is_token_char(s[e]),
    ensures
        token_run(s, i) == e,
    decreases e - i,
{
    if i < e {
        lemma_token_run_is(s, i + 1, e);
    }
}

/// The run of optional whitespace starting at `i` ends exactly at `e`.
pub proof fn lemma_ows_run_is(s: Seq<char>, i: int, e: int)
    requires
        0 <= i <= e <= s.len(),
        forall|j: int| i <= j < e ==> is_ows_char(#[trigger] s[j]),
        e < s.len() ==> !is_ows_char(s[e]),
    ensures
        ows_run(s, i) == e,
    decreases e - i,
{
    if i < e {
        lemma_ows_run_is(s, i + 1, e);
    }
}

pub proof fn lemma_find_from(s: Seq<char>, i: int, c: char)
    requires
        0 <= i <= s.len(),
    ensures
        match find_from(s, i, c) {
            Some(p) => i <= p < s.len() && s[p] == c && forall|j: int|
                i <= j < p ==> #[trigger] s[j] != c,
            None => forall|j: int| i <= j < s.len() ==> #[trigger] s[j] != c,
        },
    decreases s.len() - i,
{
    if i < s.len() && s[i] != c {
        lemma_find_from(s, i + 1, c);
    }
}

/// The first occurrence of `c` at or after `i` is exactly `p`.
pub proof fn lemma_find_from_is(s: Seq<char>, i: int, c: char, p: int)
    requires
        0 <= i <= p < s.len(),
        s[p] == c,
        forall|j: int| i <= j < p ==> #[trigger] s[j] != c,
    ensures
        find_from(s, i, c) == Some(p),
    decreases p - i,
{
    if i < p {
        lemma_find_from_is(s, i + 1, c, p);
    }
}

/// There is no occurrence of `c` at or after `i`.
pub proof fn lemma_find_from_none(s: Seq<char>, i: int, c: char)
    requires
        0 <= i <= s.len(),
        forall|j: int| i <= j < s.len() ==> #[trigger] s[j] != c,
    ensures
        find_from(s, i, c) is None,
    decreases s.len() - i,
{
    if i < s.len() {
        lemma_find_from_none(s, i + 1, c);
    }
}

pub proof fn lemma_last_plus(s: Seq<char>, from: int, to: int)
    requires
        0 <= from <= to <= s.len(),
    ensures
        match last_plus(s, from, to) {
            Some(p) => from <= p < to && s[p] == '+' && forall|j: int|
                p < j < to ==> #[trigger] s[j] != '+',
            None => forall|j: int| from <= j < to ==> #[trigger] s[j] != '+',
        },
    decreases to - from,
{
    if to > from && s[to - 1] != '+' {
        lemma_last_plus(s, from, to - 1);
    }
}

/// The last `'+'` in `s[from..to]` is exactly `p`.
pub proof fn lemma_last_plus_is(s: Seq<char>, from: int, to: int, p: int)
    requires
        0 <= from <= p < to <= s.len(),
        s[p] == '+',
        forall|j: int| p < j < to ==> #[trigger] s[j] != '+',
    ensures
        last_plus(s, from, to) == Some(p),
    decreases to - p,
{
    if p < to - 1 {
        lemma_last_plus_is(s, from, to - 1, p);
    }
}

/// There is no `'+'` in `s[from..to]`.
pub proof fn lemma_last_plus_none(s: Seq<char>, from: int, to: int)
    requires
        0 <= from <= to <= s.len(),
        forall|j: int| from <= j < to ==> #[trigger] s[j] != '+',
    ensures
        last_plus(s, from, to) is None,
    decreases to - from,
{
    if to > from {
        lemma_last_plus_none(s, from, to - 1);
    }
}

pub proof fn lemma_fold_seq_idempotent(s: Seq<char>)
    ensures
        fold_seq(fold_seq(s)) == fold_seq(s),
{
    assert(fold_seq(fold_seq(s)) =~= fold_seq(s));
}

/// Folding does not change which class a character belongs to.
pub proof fn lemma_fold_char_classes(c: char)
    ensures
        is_token_char(fold_char(c)) == is_token_char(c),
        is_ows_char(fold_char(c)) == is_ows_char(c),
        (fold_char(c) == '/') == (c == '/'),
        (fold_char(c) == ';') == (c == ';'),
        (fold_char(c) == '=') == (c == '='),
        (fold_char(c) == '"') == (c == '"'),
        (fold_char(c) == '+') == (c == '+'),
{
}

/// `lex_le` is reflexive.
pub proof fn lemma_lex_le_refl(a: Seq<char>)
    ensures
        lex_le(a, a),
    decreases a.len(),
{
    if a.len() > 0 {
        lemma_lex_le_refl(a.drop_first());
    }
}

/// `lex_le` is total.
pub proof fn lemma_lex_le_total(a: Seq<char>, b: Seq<char>)
    ensures
        lex_le(a, b) || lex_le(b, a),
    decreases a.len(),
{
    if a.len() > 0 && b.len() > 0 {
        if a[0] == b[0] {
            lemma_lex_le_total(a.drop_first(), b.drop_first());
        } else {
            assert((a[0] as int) != (b[0] as int));
        }
    }
}

/// `lex_le` is transitive.
pub proof fn lemma_lex_le_trans(a: Seq<char>, b: Seq<char>, c: Seq<char>)
    requires
        lex_le(a, b),
        lex_le(b, c),
    ensures
        lex_le(a, c),
    decreases a.len(),
{
    if a.len() > 0 && b.len() > 0 && c.len() > 0 && a[0] == b[0] && b[0] == c[0] {
        lemma_lex_le_trans(a.drop_first(), b.drop_first(), c.drop_first());
    }
}

/// Dropping a common prefix does not change the order.
pub proof fn lemma_lex_le_skip(a: Seq<char>, b: Seq<char>, i: int)
    requires
        0 <= i <= a.len(),
        i <= b.len(),
        forall|j: int| 0 <= j < i ==> a[j] == b[j],
    ensures
        lex_le(a, b) == lex_le(a.skip(i), b.skip(i)),
    decreases i,
{
    if i > 0 {
        assert(a.len() > 0 && b.len() > 0 && a[0] == b[0]);
        lemma_lex_le_skip(a.drop_first(), b.drop_first(), i - 1);
        assert(a.drop_first().skip(i - 1) =~= a.skip(i));
        assert(b.drop_first().skip(i - 1) =~= b.skip(i));
    } else {
        assert(a.skip(0) =~= a);
        assert(b.skip(0) =~= b);
    }
}

} // verus!
