//! Validated tokens and the executable character machinery.
//!
//! [`Name`] wraps a string known to be a valid structural token (type,
//! subtype, suffix or parameter key); its identity is case-insensitive while
//! the stored text keeps its original casing.  [`Value`] wraps a parameter
//! value under the same token grammar; it carries no identity of its own —
//! where a comparison wants to treat values case-insensitively it folds the
//! text exactly as for a `Name`.
use vstd::prelude::*;

use crate::grammar::fold_char;
use crate::grammar::fold_seq;
use crate::grammar::is_ows_char;
use crate::grammar::is_token_char;
use crate::grammar::lemma_lex_le_skip;
use crate::grammar::lex_le;
use crate::grammar::valid_token;

verus! {

/// Relies on `String::push`: appends exactly the given character.
#[verifier::external_body]
pub(crate) fn push_char(out: &mut String, c: char)
    ensures
        final(out)@ == old(out)@.push(c),
{
    out.push(c);
}

/// Whether `c` is a token character (executable form of `is_token_char`).
pub(crate) fn token_char(c: char) -> (r: bool)
    ensures
        r == is_token_char(c),
{
    let u = c as u32;
    (97 <= u && u <= 122) || (65 <= u && u <= 90) || (48 <= u && u <= 57) || u == 33 || u == 35
        || u == 36 || u == 38 || u == 45 || u == 94 || u == 95 || u == 46 || u == 43
}

/// Whether `c` is optional whitespace (executable form of `is_ows_char`).
pub(crate) fn ows_char(c: char) -> (r: bool)
    ensures
        r == is_ows_char(c),
{
    c == ' ' || c == '\t'
}

/// ASCII-lowercases one character (executable form of `fold_char`).
pub(crate) fn lower_char(c: char) -> (r: char)
    ensures
        r == fold_char(c),
{
    let u = c as u32;
    if 65 <= u && u <= 90 {
        ((u + 32) as u8) as char
    } else {
        c
    }
}

/// Copies `s[from..to]` into a fresh string.
pub(crate) fn copy_range(s: &str, from: usize, to: usize) -> (r: String)
    requires
        from <= to <= s@.len(),
    ensures
        r@ == s@.subrange(from as int, to as int),
{
    let mut out = String::new();
    let mut i = from;
    while i < to
        invariant
            from <= i <= to <= s@.len(),
            out@ == s@.subrange(from as int, i as int),
        decreases to - i,
    {
        let c = s.get_char(i);
        push_char(&mut out, c);
        i = i + 1;
        assert(out@ =~= s@.subrange(from as int, i as int));
    }
    assert(out@ =~= s@.subrange(from as int, to as int));
    out
}

/// Appends the ASCII-lowercased `s[from..to]` to `out`.
pub(crate) fn append_folded_range(out: &mut String, s: &str, from: usize, to: usize)
    requires
        from <= to <= s@.len(),
    ensures
        final(out)@ == old(out)@ + fold_seq(s@.subrange(from as int, to as int)),
{
    let mut i = from;
    while i < to
        invariant
            from <= i <= to <= s@.len(),
            out@ == old(out)@ + fold_seq(s@.subrange(from as int, i as int)),
        decreases to - i,
    {
        let c = s.get_char(i);
        push_char(out, lower_char(c));
        i = i + 1;
        assert(out@ =~= old(out)@ + fold_seq(s@.subrange(from as int, i as int)));
    }
    assert(out@ =~= old(out)@ + fold_seq(s@.subrange(from as int, to as int)));
}

/// Case-insensitive equality of two strings.
pub(crate) fn fold_eq(a: &str, b: &str) -> (r: bool)
    ensures
        r == (fold_seq(a@) == fold_seq(b@)),
{
    let na = a.unicode_len();
    let nb = b.unicode_len();
    if na != nb {
        assert(fold_seq(a@).len() != fold_seq(b@).len());
        return false;
    }
    let mut i: usize = 0;
    while i < na
        invariant
            0 <= i <= na,
            na == a@.len() && na == b@.len(),
            forall|j: int| 0 <= j < i ==> fold_seq(a@)[j] == fold_seq(b@)[j],
        decreases na - i,
    {
        let ca = lower_char(a.get_char(i));
        let cb = lower_char(b.get_char(i));
        if ca != cb {
            assert(fold_seq(a@)[i as int] != fold_seq(b@)[i as int]);
            return false;
        }
        i = i + 1;
    }
    assert(fold_seq(a@) =~= fold_seq(b@));
    true
}

/// Case-insensitive lexicographic order of two strings.
pub(crate) fn fold_le(a: &str, b: &str) -> (r: bool)
    ensures
        r == lex_le(fold_seq(a@), fold_seq(b@)),
{
    let na = a.unicode_len();
    let nb = b.unicode_len();
    let ghost fa = fold_seq(a@);
    let ghost fb = fold_seq(b@);
    let mut i: usize = 0;
    loop
        invariant
            0 <= i <= na,
            i <= nb,
            na == a@.len() && nb == b@.len(),
            fa == fold_seq(a@) && fb == fold_seq(b@),
            forall|j: int| 0 <= j < i ==> fa[j] == fb[j],
        decreases na - i,
    {
        proof {
            lemma_lex_le_skip(fa, fb, i as int);
        }
        if i >= na {
            assert(fa.skip(i as int).len() == 0);
            return true;
        }
        if i >= nb {
            assert(fb.skip(i as int).len() == 0 && fa.skip(i as int).len() > 0);
            return false;
        }
        let ca = lower_char(a.get_char(i));
        let cb = lower_char(b.get_char(i));
        if ca != cb {
            assert(fa.skip(i as int)[0] == fa[i as int] && fb.skip(i as int)[0] == fb[i as int]);
            assert(lex_le(fa.skip(i as int), fb.skip(i as int)) == ((ca as int) < (cb as int)));
            return (ca as u32) < (cb as u32);
        }
        i = i + 1;
    }
}

/// Whether `s` is one non-empty run of token characters.
pub(crate) fn check_token(s: &str) -> (r: bool)
    ensures
        r == valid_token(s@),
{
    let n = s.unicode_len();
    if n == 0 {
        return false;
    }
    let mut i: usize = 0;
    while i < n
        invariant
            0 <= i <= n,
            n == s@.len(),
            forall|j: int| 0 <= j < i ==> is_token_char(#[trigger] s@[j]),
        decreases n - i,
    {
        if !token_char(s.get_char(i)) {
            return false;
        }
        i = i + 1;
    }
    true
}

/// A validated structural token; the stored text keeps its original casing,
/// identity is taken over the ASCII-lowercased characters.
#[derive(Debug)]
pub struct Name {
    text: String,
}

impl View for Name {
    type V = Seq<char>;

    closed spec fn view(&self) -> Seq<char> {
        self.text@
    }
}

impl Name {
    /// The token is non-empty and made of token characters only.
    pub open spec fn wf(&self) -> bool {
        valid_token(self@)
    }

    /// Validates `s` as a structural token.
    pub fn new(s: &str) -> (r: Option<Name>)
        ensures
            match r {
                Some(n) => valid_token(s@) && n@ == s@ && n.wf(),
                None => !valid_token(s@),
            },
    {
        if check_token(s) {
            Some(Name { text: s.to_owned() })
        } else {
            None
        }
    }

    /// Wraps text already known to be a valid token.
    pub(crate) fn from_text(text: String) -> (r: Name)
        requires
            valid_token(text@),
        ensures
            r@ == text@ && r.wf(),
    {
        Name { text }
    }

    /// The token's text, in its original casing.
    pub fn as_str(&self) -> (r: &str)
        ensures
            r@ == self@,
    {
        self.text.as_str()
    }

    /// A copy of this token.
    pub fn duplicate(&self) -> (r: Name)
        ensures
            r@ == self@,
    {
        Name { text: self.text.clone() }
    }
}

/// A validated parameter value; stored and displayed with its original
/// casing, compared case-insensitively only where a media type's identity
/// asks for it.
#[derive(Debug)]
pub struct Value {
    text: String,
}

impl View for Value {
    type V = Seq<char>;

    closed spec fn view(&self) -> Seq<char> {
        self.text@
    }
}

impl Value {
    /// The value is non-empty and made of token characters only.
    pub open spec fn wf(&self) -> bool {
        valid_token(self@)
    }

    /// Validates `s` as a parameter value.
    pub fn new(s: &str) -> (r: Option<Value>)
        ensures
            match r {
                Some(v) => valid_token(s@) && v@ == s@ && v.wf(),
                None => !valid_token(s@),
            },
    {
        if check_token(s) {
            Some(Value { text: s.to_owned() })
        } else {
            None
        }
    }

    /// Wraps text already known to be a valid value.
    pub(crate) fn from_text(text: String) -> (r: Value)
        requires
            valid_token(text@),
        ensures
            r@ == text@ && r.wf(),
    {
        Value { text }
    }

    /// The value's text, in its original casing.
    pub fn as_str(&self) -> (r: &str)
        ensures
            r@ == self@,
    {
        self.text.as_str()
    }

    /// A copy of this value.
    pub fn duplicate(&self) -> (r: Value)
        ensures
            r@ == self@,
    {
        Value { text: self.text.clone() }
    }
}

/// Appends `s[from..to]` to `out` unchanged.
pub(crate) fn append_range(out: &mut String, s: &str, from: usize, to: usize)
    requires
        from <= to <= s@.len(),
    ensures
        final(out)@ == old(out)@ + s@.subrange(from as int, to as int),
{
    let mut i = from;
    while i < to
        invariant
            from <= i <= to <= s@.len(),
            out@ == old(out)@ + s@.subrange(from as int, i as int),
        decreases to - i,
    {
        let c = s.get_char(i);
        push_char(out, c);
        i = i + 1;
        assert(out@ =~= old(out)@ + s@.subrange(from as int, i as int));
    }
    assert(out@ =~= old(out)@ + s@.subrange(from as int, to as int));
}

/// Case-insensitive three-way comparison of two strings.
pub(crate) fn fold_cmp(a: &str, b: &str) -> (r: core::cmp::Ordering)
    ensures
        r == crate::model::lex_cmp(fold_seq(a@), fold_seq(b@)),
{
    let na = a.unicode_len();
    let nb = b.unicode_len();
    let ghost fa = fold_seq(a@);
    let ghost fb = fold_seq(b@);
    let mut i: usize = 0;
    loop
        invariant
            0 <= i <= na,
            i <= nb,
            na == a@.len() && nb == b@.len(),
            fa == fold_seq(a@) && fb == fold_seq(b@),
            forall|j: int| 0 <= j < i ==> fa[j] == fb[j],
        decreases na - i,
    {
        proof {
            crate::model::lemma_lex_cmp_skip(fa, fb, i as int);
        }
        if i >= na && i >= nb {
            assert(fa.skip(i as int).len() == 0 && fb.skip(i as int).len() == 0);
            return core::cmp::Ordering::Equal;
        }
        if i >= na {
            assert(fa.skip(i as int).len() == 0 && fb.skip(i as int).len() > 0);
            return core::cmp::Ordering::Less;
        }
        if i >= nb {
            assert(fb.skip(i as int).len() == 0 && fa.skip(i as int).len() > 0);
            return core::cmp::Ordering::Greater;
        }
        let ca = lower_char(a.get_char(i));
        let cb = lower_char(b.get_char(i));
        if ca != cb {
            assert(fa.skip(i as int)[0] == fa[i as int] && fb.skip(i as int)[0] == fb[i as int]);
            if (ca as u32) < (cb as u32) {
                return core::cmp::Ordering::Less;
            }
            return core::cmp::Ordering::Greater;
        }
        i = i + 1;
    }
}

} // verus!
