//! The grammar validator and indexer.
//!
//! `parse_spec` is the mathematical definition of the grammar
//!
//! ```text
//! media-type := type "/" subtype ["+" suffix] *( ";" OWS parameter ) OWS
//! parameter  := key "=" value
//! ```
//!
//! scanned left to right: `type` is everything before the first `/` and must
//! be a valid token; the subtype segment is the token run after the `/`; the
//! last `+` inside that segment, if any, separates the subtype from the
//! suffix; each parameter is a key token, `=`, and a value token, optionally
//! wrapped in double quotes (the recorded range excludes the quotes).
//! Whitespace is allowed around each `;` and at the end; a `;` standing at
//! the very end of the string, with nothing at all after it, is rejected as
//! an empty key, while one followed by whitespace only is insignificant
//! trailing text.  The scan yields byte-range offsets into the input — never
//! a copy of it — plus the significant length: the end of the last parameter
//! value (or of the subtype/suffix when there is no parameter).
//!
//! `parse_indices` is the verified single-pass implementation: it returns
//! exactly what `parse_spec` says, as an index table.
use vstd::prelude::*;

use crate::grammar::find_from;
use crate::grammar::is_token_char;
use crate::grammar::last_plus;
use crate::grammar::lemma_find_from;
use crate::grammar::lemma_ows_run;
use crate::grammar::lemma_token_run;
use crate::grammar::ows_run;
use crate::grammar::token_run;
use crate::grammar::valid_token;

verus! {

/// Which grammar rule an input failed.
#[derive(Clone, Copy, Debug, PartialEq, Eq, Structural)]
pub enum ParseError {
    /// No `/` separates a type from a subtype.
    MissingSlash,
    /// The type before the `/` is empty or holds a non-token character.
    InvalidType,
    /// The subtype after the `/` is empty or holds a non-token character.
    InvalidSubtype,
    /// A `+` ends the subtype segment, leaving an empty suffix.
    InvalidSuffix,
    /// A parameter key is empty or is not followed by `=`.
    InvalidParamKey,
    /// A parameter value is empty or holds a non-token character.
    InvalidParamValue,
    /// A quoted parameter value has no closing quote.
    UnterminatedQuotedValue,
    /// Something other than `;`, whitespace or the end follows a component.
    TrailingText,
}

/// The byte ranges of one parameter: key start and end, value start and end.
pub struct QuadSpec {
    pub ks: int,
    pub ke: int,
    pub vs: int,
    pub ve: int,
}

/// What one full scan of an input yields: the `/` stands at `ty_end`, the
/// subtype ends at `subty_end`, a suffix (when present) starts at
/// `subty_end + 1` (past the `+`) and ends at `suffix_end`'s value, the
/// parameters are byte-range quads in encounter order, and everything from
/// `sig_len` on is insignificant trailing text.
pub struct RawParts {
    pub ty_end: int,
    pub subty_end: int,
    pub suffix_end: Option<int>,
    pub params: Seq<QuadSpec>,
    pub sig_len: int,
}

/// Scans the parameter list from `pos`, extending `acc`.
pub open spec fn parse_params_spec(s: Seq<char>, pos: int, acc: RawParts) -> Result<
    RawParts,
    ParseError,
>
    decreases s.len() - pos,
    when 0 <= pos <= s.len()
{
    let ws = ows_run(s, pos);
    if ws >= s.len() {
        Ok(acc)
    } else if s[ws] != ';' {
        Err(ParseError::TrailingText)
    } else if ws + 1 >= s.len() {
        Err(ParseError::InvalidParamKey)
    } else {
        let kstart = ows_run(s, ws + 1);
        if kstart >= s.len() {
            Ok(acc)
        } else {
            let kend = token_run(s, kstart);
            if kend == kstart {
                Err(ParseError::InvalidParamKey)
            } else if kend >= s.len() || s[kend] != '=' {
                Err(ParseError::InvalidParamKey)
            } else if kend + 1 < s.len() && s[kend + 1] == '"' {
                let cend = token_run(s, kend + 2);
                if cend == kend + 2 {
                    Err(ParseError::InvalidParamValue)
                } else if cend >= s.len() {
                    Err(ParseError::UnterminatedQuotedValue)
                } else if s[cend] != '"' {
                    Err(ParseError::InvalidParamValue)
                } else {
                    proof {
                        lemma_ows_run(s, pos);
                        lemma_ows_run(s, ws + 1);
                        lemma_token_run(s, kstart);
                        lemma_token_run(s, kend + 2);
                    }
                    parse_params_spec(
                        s,
                        cend + 1,
                        RawParts {
                            params: acc.params.push(
                                QuadSpec { ks: kstart, ke: kend, vs: kend + 2, ve: cend },
                            ),
                            sig_len: cend + 1,
                            ..acc
                        },
                    )
                }
            } else {
                let vend = token_run(s, kend + 1);
                if vend == kend + 1 {
                    Err(ParseError::InvalidParamValue)
                } else {
                    proof {
                        lemma_ows_run(s, pos);
                        lemma_ows_run(s, ws + 1);
                        lemma_token_run(s, kstart);
                        lemma_token_run(s, kend + 1);
                    }
                    parse_params_spec(
                        s,
                        vend,
                        RawParts {
                            params: acc.params.push(
                                QuadSpec { ks: kstart, ke: kend, vs: kend + 1, ve: vend },
                            ),
                            sig_len: vend,
                            ..acc
                        },
                    )
                }
            }
        }
    }
}

/// The grammar, as one function of the input: the byte-range table and the
/// significant length on success, the failed rule otherwise.
pub open spec fn parse_spec(s: Seq<char>) -> Result<RawParts, ParseError> {
    match find_from(s, 0, '/') {
        None => Err(ParseError::MissingSlash),
        Some(slash) => if !valid_token(s.subrange(0, slash)) {
            Err(ParseError::InvalidType)
        } else {
            let seg_end = token_run(s, slash + 1);
            if seg_end == slash + 1 {
                Err(ParseError::InvalidSubtype)
            } else {
                let base = RawParts {
                    ty_end: slash,
                    subty_end: seg_end,
                    suffix_end: None,
                    params: Seq::empty(),
                    sig_len: seg_end,
                };
                match last_plus(s, slash + 1, seg_end) {
                    Some(p) => if p == slash + 1 {
                        Err(ParseError::InvalidSubtype)
                    } else if p == seg_end - 1 {
                        Err(ParseError::InvalidSuffix)
                    } else {
                        parse_params_spec(
                            s,
                            seg_end,
                            RawParts { subty_end: p, suffix_end: Some(seg_end), ..base },
                        )
                    },
                    None => parse_params_spec(s, seg_end, base),
                }
            }
        },
    }
}

/// End of the run of token characters starting at `i` (executable form).
pub(crate) fn token_run_x(s: &str, i: usize) -> (r: usize)
    requires
        i <= s@.len(),
    ensures
        r == token_run(s@, i as int),
        i <= r <= s@.len(),
{
    let n = s.unicode_len();
    let mut j = i;
    while j < n
        invariant
            i <= j <= n,
            n == s@.len(),
            token_run(s@, i as int) == token_run(s@, j as int),
        decreases n - j,
    {
        if !crate::token::token_char(s.get_char(j)) {
            assert(token_run(s@, j as int) == j as int);
            return j;
        }
        j = j + 1;
    }
    assert(token_run(s@, j as int) == j as int);
    j
}

/// End of the run of optional whitespace starting at `i` (executable form).
pub(crate) fn ows_run_x(s: &str, i: usize) -> (r: usize)
    requires
        i <= s@.len(),
    ensures
        r == ows_run(s@, i as int),
        i <= r <= s@.len(),
{
    let n = s.unicode_len();
    let mut j = i;
    while j < n
        invariant
            i <= j <= n,
            n == s@.len(),
            ows_run(s@, i as int) == ows_run(s@, j as int),
        decreases n - j,
    {
        if !crate::token::ows_char(s.get_char(j)) {
            assert(ows_run(s@, j as int) == j as int);
            return j;
        }
        j = j + 1;
    }
    assert(ows_run(s@, j as int) == j as int);
    j
}

/// First occurrence of `c` at or after `i` (executable form of `find_from`).
pub(crate) fn find_from_x(s: &str, i: usize, c: char) -> (r: Option<usize>)
    requires
        i <= s@.len(),
    ensures
        match r {
            Some(p) => find_from(s@, i as int, c) == Some(p as int) && i <= p < s@.len(),
            None => find_from(s@, i as int, c) is None,
        },
{
    let n = s.unicode_len();
    let mut j = i;
    while j < n
        invariant
            i <= j <= n,
            n == s@.len(),
            find_from(s@, i as int, c) == find_from(s@, j as int, c),
        decreases n - j,
    {
        if s.get_char(j) == c {
            return Some(j);
        }
        j = j + 1;
    }
    None
}

/// Last `'+'` in `s[from..to]` (executable form of `last_plus`).
pub(crate) fn last_plus_x(s: &str, from: usize, to: usize) -> (r: Option<usize>)
    requires
        from <= to <= s@.len(),
    ensures
        match r {
            Some(p) => last_plus(s@, from as int, to as int) == Some(p as int) && from <= p < to,
            None => last_plus(s@, from as int, to as int) is None,
        },
{
    let mut j = from;
    let mut res: Option<usize> = None;
    while j < to
        invariant
            from <= j <= to <= s@.len(),
            match res {
                Some(p) => last_plus(s@, from as int, j as int) == Some(p as int) && from <= p < j,
                None => last_plus(s@, from as int, j as int) is None,
            },
        decreases to - j,
    {
        if s.get_char(j) == '+' {
            res = Some(j);
        }
        j = j + 1;
    }
    res
}

/// The byte ranges of one parameter, as stored in an index table.
#[derive(Clone, Copy, Debug)]
pub struct Quad {
    pub ks: usize,
    pub ke: usize,
    pub vs: usize,
    pub ve: usize,
}

impl View for Quad {
    type V = QuadSpec;

    open spec fn view(&self) -> QuadSpec {
        QuadSpec { ks: self.ks as int, ke: self.ke as int, vs: self.vs as int, ve: self.ve as int }
    }
}

/// The byte-range table of one parsed string: offsets only, no bytes.
#[derive(Debug)]
pub struct Indices {
    pub ty_end: usize,
    pub subty_end: usize,
    pub suffix_end: Option<usize>,
    pub params: Vec<Quad>,
}

impl Indices {
    /// The scan result these indices stand for, given the significant length.
    pub open spec fn raw(&self, sig_len: int) -> RawParts {
        RawParts {
            ty_end: self.ty_end as int,
            subty_end: self.subty_end as int,
            suffix_end: match self.suffix_end {
                Some(e) => Some(e as int),
                None => None,
            },
            params: self.params@.map_values(|q: Quad| q@),
            sig_len: sig_len,
        }
    }
}

/// Scans and validates `s` in one pass, returning its byte-range table and
/// its significant length — exactly what `parse_spec` says of `s`.
pub(crate) fn parse_indices(s: &str) -> (r: Result<(Indices, usize), ParseError>)
    ensures
        match r {
            Ok((ind, len)) => parse_spec(s@) == Ok::<RawParts, ParseError>(ind.raw(len as int)),
            Err(e) => parse_spec(s@) == Err::<RawParts, ParseError>(e),
        },
{
    let n = s.unicode_len();
    let slash = match find_from_x(s, 0, '/') {
        Some(p) => p,
        None => {
            return Err(ParseError::MissingSlash);
        },
    };
    proof {
        lemma_find_from(s@, 0, '/');
    }
    let ty_run = token_run_x(s, 0);
    if slash == 0 || ty_run != slash {
        proof {
            lemma_token_run(s@, 0);
            if slash != 0 && ty_run != slash {
                assert('/' as int == 47 && !is_token_char('/'));
                assert(ty_run < slash) by {
                    if ty_run > slash {
                        assert(is_token_char(s@[slash as int]));
                    }
                }
                assert(!is_token_char(s@[ty_run as int]));
                assert(s@.subrange(0, slash as int)[ty_run as int] == s@[ty_run as int]);
                assert(!valid_token(s@.subrange(0, slash as int)));
            }
        }
        return Err(ParseError::InvalidType);
    }
    proof {
        lemma_token_run(s@, 0);
        assert forall|i: int| 0 <= i < slash implies is_token_char(
            #[trigger] s@.subrange(0, slash as int)[i],
        ) by {
            assert(s@.subrange(0, slash as int)[i] == s@[i]);
        }
        assert(valid_token(s@.subrange(0, slash as int)));
    }
    let seg_end = token_run_x(s, slash + 1);
    if seg_end == slash + 1 {
        return Err(ParseError::InvalidSubtype);
    }
    let mut ind = Indices { ty_end: slash, subty_end: seg_end, suffix_end: None, params: Vec::new() };
    match last_plus_x(s, slash + 1, seg_end) {
        Some(p) => {
            if p == slash + 1 {
                return Err(ParseError::InvalidSubtype);
            }
            if p == seg_end - 1 {
                return Err(ParseError::InvalidSuffix);
            }
            ind.subty_end = p;
            ind.suffix_end = Some(seg_end);
        },
        None => {},
    }
    let mut sig_len = seg_end;
    let mut pos = seg_end;
    let ghost start = ind.raw(seg_end as int);
    proof {
        assert(start.params =~= Seq::<QuadSpec>::empty());
        assert(parse_spec(s@) == parse_params_spec(s@, seg_end as int, start));
    }
    loop
        invariant
            seg_end <= pos <= n,
            n == s@.len(),
            sig_len <= n,
            parse_params_spec(s@, seg_end as int, start) == parse_params_spec(
                s@,
                pos as int,
                ind.raw(sig_len as int),
            ),
            parse_spec(s@) == parse_params_spec(s@, seg_end as int, start),
        decreases n - pos,
    {
        let ghost acc = ind.raw(sig_len as int);
        let ws = ows_run_x(s, pos);
        if ws >= n {
            return Ok((ind, sig_len));
        }
        if s.get_char(ws) != ';' {
            return Err(ParseError::TrailingText);
        }
        if ws + 1 >= n {
            return Err(ParseError::InvalidParamKey);
        }
        let kstart = ows_run_x(s, ws + 1);
        if kstart >= n {
            return Ok((ind, sig_len));
        }
        let kend = token_run_x(s, kstart);
        if kend == kstart {
            return Err(ParseError::InvalidParamKey);
        }
        if kend >= n || s.get_char(kend) != '=' {
            return Err(ParseError::InvalidParamKey);
        }
        if kend + 1 < n && s.get_char(kend + 1) == '"' {
            let cend = token_run_x(s, kend + 2);
            if cend == kend + 2 {
                return Err(ParseError::InvalidParamValue);
            }
            if cend >= n {
                return Err(ParseError::UnterminatedQuotedValue);
            }
            if s.get_char(cend) != '"' {
                return Err(ParseError::InvalidParamValue);
            }
            let q = Quad { ks: kstart, ke: kend, vs: kend + 2, ve: cend };
            ind.params.push(q);
            sig_len = cend + 1;
            pos = cend + 1;
            proof {
                assert(ind.raw(sig_len as int).params =~= acc.params.push(q@));
                assert(ind.raw(sig_len as int) == RawParts {
                    params: acc.params.push(
                        QuadSpec {
                            ks: kstart as int,
                            ke: kend as int,
                            vs: kend + 2 as int,
                            ve: cend as int,
                        },
                    ),
                    sig_len: cend + 1 as int,
                    ..acc
                });
            }
        } else {
            let vend = token_run_x(s, kend + 1);
            if vend == kend + 1 {
                return Err(ParseError::InvalidParamValue);
            }
            let q = Quad { ks: kstart, ke: kend, vs: kend + 1, ve: vend };
            ind.params.push(q);
            sig_len = vend;
            pos = vend;
            proof {
                assert(ind.raw(sig_len as int).params =~= acc.params.push(q@));
                assert(ind.raw(sig_len as int) == RawParts {
                    params: acc.params.push(
                        QuadSpec {
                            ks: kstart as int,
                            ke: kend as int,
                            vs: kend + 1 as int,
                            ve: vend as int,
                        },
                    ),
                    sig_len: vend as int,
                    ..acc
                });
            }
        }
    }
}

} // verus!
