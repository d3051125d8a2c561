//! The mathematical model of a media type.
//!
//! A [`MediaType`](crate::media_type::MediaType) and a
//! [`MediaTypeBuf`](crate::media_type_buf::MediaTypeBuf) both denote an
//! [`MtModel`]: the character sequences of the type, the subtype, the
//! optional suffix, and the parameter pairs sorted by case-insensitively
//! folded key.  Every contract of the library speaks over this model.
use vstd::prelude::*;

use crate::grammar::fold_seq;
use crate::grammar::lemma_lex_le_refl;
use crate::grammar::lemma_lex_le_total;
use crate::grammar::lemma_lex_le_trans;
use crate::grammar::lex_le;
use crate::grammar::valid_token;
use crate::parse::QuadSpec;
use crate::parse::RawParts;
use crate::parse::parse_params_spec;
use crate::parse::parse_spec;
use crate::grammar::find_from;
use crate::grammar::last_plus;
use crate::grammar::lemma_find_from;
use crate::grammar::lemma_last_plus;
use crate::grammar::lemma_ows_run;
use crate::grammar::lemma_ows_run_is;
use crate::grammar::lemma_token_run_is;
use crate::grammar::lemma_find_from_is;
use crate::grammar::lemma_last_plus_is;
use crate::grammar::lemma_last_plus_none;
use crate::grammar::is_token_char;
use crate::grammar::is_ows_char;
use crate::grammar::lemma_token_run;
use crate::grammar::ows_run;
use crate::grammar::token_run;

verus! {

/// One parameter: its key and its value, original casing kept.
pub type Pair = (Seq<char>, Seq<char>);

/// The structured parts of one media type.
#[verifier::ext_equal]
pub struct MtModel {
    pub ty: Seq<char>,
    pub subty: Seq<char>,
    pub suffix: Option<Seq<char>>,
    pub params: Seq<Pair>,
}

/// The parameter pairs a byte-range table denotes against a buffer.
pub open spec fn pairs_of(s: Seq<char>, quads: Seq<QuadSpec>) -> Seq<Pair> {
    quads.map_values(|q: QuadSpec| (s.subrange(q.ks, q.ke), s.subrange(q.vs, q.ve)))
}

/// The model a full scan result denotes against the buffer it indexes.
pub open spec fn model_of(s: Seq<char>, r: RawParts) -> MtModel {
    MtModel {
        ty: s.subrange(0, r.ty_end),
        subty: s.subrange(r.ty_end + 1, r.subty_end),
        suffix: match r.suffix_end {
            Some(e) => Some(s.subrange(r.subty_end + 1, e)),
            None => None,
        },
        params: pairs_of(s, r.params),
    }
}

/// Parameters are sorted, ascending, by case-insensitively folded key.
pub open spec fn params_sorted(ps: Seq<Pair>) -> bool {
    forall|i: int, j: int|
        0 <= i < j < ps.len() ==> lex_le(fold_seq((#[trigger] ps[i]).0), fold_seq((#[trigger] ps[j]).0))
}

/// Every token is valid and the parameters satisfy the sorting invariant.
pub open spec fn model_wf(m: MtModel) -> bool {
    &&& valid_token(m.ty)
    &&& valid_token(m.subty)
    &&& match m.suffix {
        Some(x) => valid_token(x),
        None => true,
    }
    &&& forall|i: int|
        0 <= i < m.params.len() ==> valid_token((#[trigger] m.params[i]).0) && valid_token(
            m.params[i].1,
        )
    &&& params_sorted(m.params)
}

/// The serialized form parses back to the same split: the suffix holds no
/// `+`, and without a suffix the subtype holds none.
pub open spec fn splittable(m: MtModel) -> bool {
    match m.suffix {
        Some(x) => forall|i: int| 0 <= i < x.len() ==> x[i] != '+',
        None => forall|i: int| 0 <= i < m.subty.len() ==> m.subty[i] != '+',
    }
}

/// The value of the first parameter whose folded key matches `k`, if any.
pub open spec fn lookup(ps: Seq<Pair>, k: Seq<char>) -> Option<Seq<char>>
    decreases ps.len(),
{
    if ps.len() == 0 {
        None
    } else if fold_seq(ps[0].0) == fold_seq(k) {
        Some(ps[0].1)
    } else {
        lookup(ps.drop_first(), k)
    }
}

/// The index of the first parameter whose folded key matches `k`, if any.
pub open spec fn find_key(ps: Seq<Pair>, k: Seq<char>) -> Option<int>
    decreases ps.len(),
{
    if ps.len() == 0 {
        None
    } else if fold_seq(ps[0].0) == fold_seq(k) {
        Some(0)
    } else {
        match find_key(ps.drop_first(), k) {
            Some(i) => Some(i + 1),
            None => None,
        }
    }
}

/// How many parameters carry the folded key `k`.
pub open spec fn key_count(ps: Seq<Pair>, k: Seq<char>) -> nat
    decreases ps.len(),
{
    if ps.len() == 0 {
        0
    } else {
        (if fold_seq(ps[0].0) == fold_seq(k) {
            1nat
        } else {
            0nat
        }) + key_count(ps.drop_first(), k)
    }
}

/// `find_key` and `lookup` point at the leftmost parameter matching `k`.
pub proof fn lemma_find_key(ps: Seq<Pair>, k: Seq<char>)
    ensures
        match find_key(ps, k) {
            Some(i) => 0 <= i < ps.len() && fold_seq(ps[i].0) == fold_seq(k) && lookup(ps, k)
                == Some(ps[i].1) && forall|j: int|
                0 <= j < i ==> fold_seq((#[trigger] ps[j]).0) != fold_seq(k),
            None => lookup(ps, k) is None && forall|j: int|
                0 <= j < ps.len() ==> fold_seq((#[trigger] ps[j]).0) != fold_seq(k),
        },
    decreases ps.len(),
{
    if ps.len() > 0 && fold_seq(ps[0].0) != fold_seq(k) {
        lemma_find_key(ps.drop_first(), k);
        assert(forall|j: int|
            1 <= j < ps.len() ==> #[trigger] ps[j] == ps.drop_first()[j - 1]);
    }
}

/// The leftmost match determines `find_key` and `lookup` exactly.
pub proof fn lemma_find_key_is(ps: Seq<Pair>, k: Seq<char>, i: int)
    requires
        0 <= i < ps.len(),
        fold_seq(ps[i].0) == fold_seq(k),
        forall|j: int| 0 <= j < i ==> fold_seq((#[trigger] ps[j]).0) != fold_seq(k),
    ensures
        find_key(ps, k) == Some(i),
        lookup(ps, k) == Some(ps[i].1),
    decreases i,
{
    if i > 0 {
        assert(forall|j: int|
            1 <= j < ps.len() ==> #[trigger] ps.drop_first()[j - 1] == ps[j]);
        lemma_find_key_is(ps.drop_first(), k, i - 1);
    }
}

/// No match anywhere means `lookup` finds nothing.
pub proof fn lemma_find_key_none(ps: Seq<Pair>, k: Seq<char>)
    requires
        forall|j: int| 0 <= j < ps.len() ==> fold_seq((#[trigger] ps[j]).0) != fold_seq(k),
    ensures
        find_key(ps, k) is None,
        lookup(ps, k) is None,
    decreases ps.len(),
{
    if ps.len() > 0 {
        assert(forall|j: int|
            1 <= j < ps.len() ==> #[trigger] ps.drop_first()[j - 1] == ps[j]);
        lemma_find_key_none(ps.drop_first(), k);
    }
}

/// Stable sorted insertion: the new pair goes after every pair whose folded
/// key is less than or equal to its own.
pub open spec fn insert_pair(ps: Seq<Pair>, p: Pair) -> Seq<Pair>
    decreases ps.len(),
{
    if ps.len() == 0 {
        seq![p]
    } else if lex_le(fold_seq(ps.last().0), fold_seq(p.0)) {
        ps.push(p)
    } else {
        insert_pair(ps.drop_last(), p).push(ps.last())
    }
}

/// Stable insertion sort by folded key.
pub open spec fn sort_pairs(ps: Seq<Pair>) -> Seq<Pair>
    decreases ps.len(),
{
    if ps.len() == 0 {
        Seq::empty()
    } else {
        insert_pair(sort_pairs(ps.drop_last()), ps.last())
    }
}

/// On a sorted sequence, `insert_pair` is insertion at the boundary `j`:
/// the first index whose folded key exceeds the new pair's.
pub proof fn lemma_insert_pair_at(ps: Seq<Pair>, p: Pair, j: int)
    requires
        params_sorted(ps),
        0 <= j <= ps.len(),
        forall|i: int| 0 <= i < j ==> lex_le(fold_seq((#[trigger] ps[i]).0), fold_seq(p.0)),
        j < ps.len() ==> !lex_le(fold_seq(ps[j].0), fold_seq(p.0)),
    ensures
        insert_pair(ps, p) == ps.subrange(0, j) + seq![p] + ps.subrange(j, ps.len() as int),
    decreases ps.len(),
{
    if ps.len() == 0 {
        assert(insert_pair(ps, p) =~= ps.subrange(0, j) + seq![p] + ps.subrange(
            j,
            ps.len() as int,
        ));
    } else if lex_le(fold_seq(ps.last().0), fold_seq(p.0)) {
        assert(j == ps.len()) by {
            if j < ps.len() {
                assert(lex_le(fold_seq(ps[j].0), fold_seq(p.0))) by {
                    if j < ps.len() - 1 {
                        lemma_lex_le_trans(
                            fold_seq(ps[j].0),
                            fold_seq(ps.last().0),
                            fold_seq(p.0),
                        );
                    }
                }
            }
        }
        assert(insert_pair(ps, p) =~= ps.subrange(0, j) + seq![p] + ps.subrange(
            j,
            ps.len() as int,
        ));
    } else {
        assert(j < ps.len()) by {
            if j == ps.len() {
                assert(lex_le(fold_seq(ps[ps.len() - 1].0), fold_seq(p.0)));
            }
        }
        assert(params_sorted(ps.drop_last())) by {
            assert(forall|a: int, b: int|
                0 <= a < b < ps.len() - 1 ==> lex_le(
                    fold_seq((#[trigger] ps.drop_last()[a]).0),
                    fold_seq((#[trigger] ps.drop_last()[b]).0),
                ));
        }
        assert(forall|i: int|
            0 <= i < j ==> lex_le(fold_seq((#[trigger] ps.drop_last()[i]).0), fold_seq(p.0)));
        assert(j < ps.len() - 1 ==> !lex_le(fold_seq(ps.drop_last()[j].0), fold_seq(p.0)));
        lemma_insert_pair_at(ps.drop_last(), p, j);
        assert(insert_pair(ps, p) =~= ps.subrange(0, j) + seq![p] + ps.subrange(
            j,
            ps.len() as int,
        ));
    }
}

/// Inserting at its boundary keeps a sorted sequence sorted.
pub proof fn lemma_insert_at_sorted(ps: Seq<Pair>, p: Pair, j: int)
    requires
        params_sorted(ps),
        0 <= j <= ps.len(),
        forall|i: int| 0 <= i < j ==> lex_le(fold_seq((#[trigger] ps[i]).0), fold_seq(p.0)),
        j < ps.len() ==> !lex_le(fold_seq(ps[j].0), fold_seq(p.0)),
    ensures
        params_sorted(ps.subrange(0, j) + seq![p] + ps.subrange(j, ps.len() as int)),
{
    let r = ps.subrange(0, j) + seq![p] + ps.subrange(j, ps.len() as int);
    assert forall|a: int, b: int| 0 <= a < b < r.len() implies lex_le(
        fold_seq((#[trigger] r[a]).0),
        fold_seq((#[trigger] r[b]).0),
    ) by {
        if j < ps.len() {
            lemma_lex_le_total(fold_seq(ps[j].0), fold_seq(p.0));
        }
        if a < j && b == j {
            assert(r[a] == ps[a] && r[b] == p);
        } else if a < j && b > j {
            assert(r[a] == ps[a] && r[b] == ps[b - 1]);
            if b - 1 == a {
                lemma_lex_le_refl(fold_seq(ps[a].0));
            }
        } else if a == j && b > j {
            assert(r[a] == p && r[b] == ps[b - 1]);
            if b - 1 == j {
                lemma_lex_le_refl(fold_seq(ps[j].0));
            }
            lemma_lex_le_trans(fold_seq(p.0), fold_seq(ps[j].0), fold_seq(ps[b - 1].0));
        } else if a > j && b > j {
            assert(r[a] == ps[a - 1] && r[b] == ps[b - 1]);
        } else {
            assert(r[a] == ps[a] && r[b] == ps[b]);
        }
    }
}

/// Sorting a sorted sequence changes nothing.
pub proof fn lemma_sort_pairs_sorted_id(ps: Seq<Pair>)
    requires
        params_sorted(ps),
    ensures
        sort_pairs(ps) == ps,
    decreases ps.len(),
{
    if ps.len() > 0 {
        assert(params_sorted(ps.drop_last())) by {
            assert(forall|a: int, b: int|
                0 <= a < b < ps.len() - 1 ==> lex_le(
                    fold_seq((#[trigger] ps.drop_last()[a]).0),
                    fold_seq((#[trigger] ps.drop_last()[b]).0),
                ));
        }
        lemma_sort_pairs_sorted_id(ps.drop_last());
        if ps.len() > 1 {
            assert(lex_le(fold_seq(ps.drop_last().last().0), fold_seq(ps.last().0)));
        }
        assert(sort_pairs(ps) =~= ps);
    }
}

/// The ranges of one parameter quad lie in order inside the significant
/// prefix `n` of `s`, and both slices are valid tokens.
pub open spec fn quad_ok(s: Seq<char>, q: QuadSpec, n: int) -> bool {
    &&& 0 <= q.ks < q.ke < q.vs < q.ve <= n <= s.len()
    &&& valid_token(s.subrange(q.ks, q.ke))
    &&& valid_token(s.subrange(q.vs, q.ve))
}

/// A successful parameter scan only appends well-formed quads and never
/// touches the structural fields.
pub proof fn lemma_parse_params_wf(s: Seq<char>, pos: int, acc: RawParts)
    requires
        0 <= pos <= s.len(),
        acc.sig_len == pos,
        parse_params_spec(s, pos, acc) is Ok,
    ensures
        ({
            let r = parse_params_spec(s, pos, acc)->Ok_0;
            &&& r.ty_end == acc.ty_end
            &&& r.subty_end == acc.subty_end
            &&& r.suffix_end == acc.suffix_end
            &&& pos <= r.sig_len <= s.len()
            &&& r.params.len() >= acc.params.len()
            &&& r.params.subrange(0, acc.params.len() as int) == acc.params
            &&& forall|i: int|
                acc.params.len() <= i < r.params.len() ==> quad_ok(
                    s,
                    #[trigger] r.params[i],
                    r.sig_len,
                ) && pos <= r.params[i].ks
        }),
    decreases s.len() - pos,
{
    let r = parse_params_spec(s, pos, acc)->Ok_0;
    let ws = ows_run(s, pos);
    lemma_ows_run(s, pos);
    if ws >= s.len() {
        assert(r.params.subrange(0, acc.params.len() as int) =~= acc.params);
    } else {
        let kstart = ows_run(s, ws + 1);
        lemma_ows_run(s, ws + 1);
        if kstart >= s.len() {
            assert(r.params.subrange(0, acc.params.len() as int) =~= acc.params);
        } else {
            let kend = token_run(s, kstart);
            lemma_token_run(s, kstart);
            if kend + 1 < s.len() && s[kend + 1] == '"' {
                let cend = token_run(s, kend + 2);
                lemma_token_run(s, kend + 2);
                let q = QuadSpec { ks: kstart, ke: kend, vs: kend + 2, ve: cend };
                let acc2 = RawParts {
                    params: acc.params.push(q),
                    sig_len: cend + 1,
                    ..acc
                };
                assert(valid_token(s.subrange(kstart, kend))) by {
                    assert(forall|i: int|
                        0 <= i < kend - kstart ==> #[trigger] s.subrange(kstart, kend)[i] == s[kstart + i]);
                }
                assert(valid_token(s.subrange(kend + 2, cend))) by {
                    assert(forall|i: int|
                        0 <= i < cend - (kend + 2) ==> #[trigger] s.subrange(kend + 2, cend)[i]
                            == s[kend + 2 + i]);
                }
                lemma_parse_params_wf(s, cend + 1, acc2);
                assert(r.params.subrange(0, acc.params.len() as int) =~= acc.params) by {
                    assert(r.params.subrange(0, acc2.params.len() as int) == acc2.params);
                    assert(forall|i: int|
                        0 <= i < acc.params.len() ==> #[trigger] r.params[i] == acc2.params[i]);
                }
                assert(quad_ok(s, q, cend + 1));
                assert(acc2.params[acc.params.len() as int] == q);
                assert(r.params.subrange(0, acc2.params.len() as int)[acc.params.len() as int]
                    == r.params[acc.params.len() as int]);
                assert(r.params[acc.params.len() as int] == q);
            } else {
                let vend = token_run(s, kend + 1);
                lemma_token_run(s, kend + 1);
                let q = QuadSpec { ks: kstart, ke: kend, vs: kend + 1, ve: vend };
                let acc2 = RawParts {
                    params: acc.params.push(q),
                    sig_len: vend,
                    ..acc
                };
                assert(valid_token(s.subrange(kstart, kend))) by {
                    assert(forall|i: int|
                        0 <= i < kend - kstart ==> #[trigger] s.subrange(kstart, kend)[i] == s[kstart + i]);
                }
                assert(valid_token(s.subrange(kend + 1, vend))) by {
                    assert(forall|i: int|
                        0 <= i < vend - (kend + 1) ==> #[trigger] s.subrange(kend + 1, vend)[i]
                            == s[kend + 1 + i]);
                }
                lemma_parse_params_wf(s, vend, acc2);
                assert(r.params.subrange(0, acc.params.len() as int) =~= acc.params) by {
                    assert(r.params.subrange(0, acc2.params.len() as int) == acc2.params);
                    assert(forall|i: int|
                        0 <= i < acc.params.len() ==> #[trigger] r.params[i] == acc2.params[i]);
                }
                assert(quad_ok(s, q, vend));
                assert(acc2.params[acc.params.len() as int] == q);
                assert(r.params.subrange(0, acc2.params.len() as int)[acc.params.len() as int]
                    == r.params[acc.params.len() as int]);
                assert(r.params[acc.params.len() as int] == q);
            }
        }
    }
}

/// Everything a successful scan guarantees of its result: ordered in-bound
/// ranges, valid tokens, and a re-splittable subtype/suffix division.
pub proof fn lemma_parse_wf(s: Seq<char>)
    requires
        parse_spec(s) is Ok,
    ensures
        ({
            let r = parse_spec(s)->Ok_0;
            let m = model_of(s, r);
            &&& 0 < r.ty_end
            &&& r.ty_end + 1 < r.subty_end
            &&& match r.suffix_end {
                Some(e) => r.subty_end + 1 < e && e <= r.sig_len,
                None => r.subty_end <= r.sig_len,
            }
            &&& r.sig_len <= s.len()
            &&& valid_token(m.ty)
            &&& valid_token(m.subty)
            &&& match m.suffix {
                Some(x) => valid_token(x),
                None => true,
            }
            &&& forall|i: int|
                0 <= i < r.params.len() ==> quad_ok(s, #[trigger] r.params[i], r.sig_len)
            &&& forall|i: int|
                0 <= i < m.params.len() ==> valid_token((#[trigger] m.params[i]).0) && valid_token(
                    m.params[i].1,
                )
            &&& splittable(m)
        }),
{
    let r = parse_spec(s)->Ok_0;
    let m = model_of(s, r);
    let slash = find_from(s, 0, '/')->Some_0;
    lemma_find_from(s, 0, '/');
    let seg_end = token_run(s, slash + 1);
    lemma_token_run(s, slash + 1);
    lemma_last_plus(s, slash + 1, seg_end);
    let base = RawParts {
        ty_end: slash,
        subty_end: seg_end,
        suffix_end: None,
        params: Seq::empty(),
        sig_len: seg_end,
    };
    let acc = match last_plus(s, slash + 1, seg_end) {
        Some(p) => RawParts { subty_end: p, suffix_end: Some(seg_end), ..base },
        None => base,
    };
    assert(parse_params_spec(s, seg_end, acc) == parse_spec(s));
    lemma_parse_params_wf(s, seg_end, acc);
    assert(valid_token(s.subrange(0, slash)));
    assert(valid_token(m.subty)) by {
        assert(m.subty == s.subrange(r.ty_end + 1, r.subty_end));
        assert(forall|i: int|
            0 <= i < r.subty_end - (r.ty_end + 1) ==> #[trigger] m.subty[i] == s[r.ty_end + 1 + i]);
    }
    match r.suffix_end {
        Some(e) => {
            let x = m.suffix->Some_0;
            assert(valid_token(x)) by {
                assert(forall|i: int|
                    0 <= i < e - (r.subty_end + 1) ==> #[trigger] x[i] == s[r.subty_end + 1 + i]);
            }
            assert(splittable(m)) by {
                assert(forall|i: int|
                    0 <= i < x.len() ==> #[trigger] x[i] == s[r.subty_end + 1 + i]);
            }
        },
        None => {
            assert(splittable(m)) by {
                assert(forall|i: int|
                    0 <= i < m.subty.len() ==> #[trigger] m.subty[i] == s[r.ty_end + 1 + i]);
            }
        },
    }
    assert(forall|i: int|
        0 <= i < m.params.len() ==> valid_token((#[trigger] m.params[i]).0) && valid_token(
            m.params[i].1,
        )) by {
        assert(forall|i: int|
            0 <= i < r.params.len() ==> #[trigger] m.params[i] == (
                s.subrange(r.params[i].ks, r.params[i].ke),
                s.subrange(r.params[i].vs, r.params[i].ve),
            ));
    }
}

/// Cutting the buffer at the significant length leaves the model unchanged:
/// every recorded range lies inside the significant prefix.
pub proof fn lemma_model_truncate(s: Seq<char>, r: RawParts)
    requires
        0 < r.ty_end,
        r.ty_end + 1 < r.subty_end,
        match r.suffix_end {
            Some(e) => r.subty_end + 1 < e && e <= r.sig_len,
            None => r.subty_end <= r.sig_len,
        },
        r.sig_len <= s.len(),
        forall|i: int| 0 <= i < r.params.len() ==> quad_ok(s, #[trigger] r.params[i], r.sig_len),
    ensures
        model_of(s.subrange(0, r.sig_len), r) == model_of(s, r),
{
    let t = s.subrange(0, r.sig_len);
    assert(t.subrange(0, r.ty_end) =~= s.subrange(0, r.ty_end));
    assert(t.subrange(r.ty_end + 1, r.subty_end) =~= s.subrange(r.ty_end + 1, r.subty_end));
    match r.suffix_end {
        Some(e) => {
            assert(t.subrange(r.subty_end + 1, e) =~= s.subrange(r.subty_end + 1, e));
        },
        None => {},
    }
    assert(pairs_of(t, r.params) =~= pairs_of(s, r.params)) by {
        assert forall|i: int| 0 <= i < r.params.len() implies #[trigger] pairs_of(t, r.params)[i]
            == pairs_of(s, r.params)[i] by {
            let q = r.params[i];
            assert(t.subrange(q.ks, q.ke) =~= s.subrange(q.ks, q.ke));
            assert(t.subrange(q.vs, q.ve) =~= s.subrange(q.vs, q.ve));
        }
    }
    assert(model_of(t, r) =~= model_of(s, r));
}

/// The textual form of a parameter list: `"; key=value"` for each pair.
pub open spec fn serialize_params(ps: Seq<Pair>) -> Seq<char>
    decreases ps.len(),
{
    if ps.len() == 0 {
        Seq::empty()
    } else {
        seq![';', ' '] + ps[0].0 + seq!['='] + ps[0].1 + serialize_params(ps.drop_first())
    }
}

/// The textual form of a media type:
/// `type "/" subtype ["+" suffix] *("; " key "=" value)`.
pub open spec fn serialize_model(m: MtModel) -> Seq<char> {
    m.ty + seq!['/'] + m.subty + (match m.suffix {
        Some(x) => seq!['+'] + x,
        None => Seq::<char>::empty(),
    }) + serialize_params(m.params)
}

/// Serialization distributes over concatenation of parameter lists.
pub proof fn lemma_serialize_params_concat(a: Seq<Pair>, b: Seq<Pair>)
    ensures
        serialize_params(a + b) == serialize_params(a) + serialize_params(b),
    decreases a.len(),
{
    if a.len() == 0 {
        assert(a + b =~= b);
        assert(serialize_params(a) + serialize_params(b) =~= serialize_params(b));
    } else {
        assert((a + b).drop_first() =~= a.drop_first() + b);
        lemma_serialize_params_concat(a.drop_first(), b);
        assert(serialize_params(a + b) =~= serialize_params(a) + serialize_params(b));
    }
}

/// Scanning the serialized parameter list appends exactly those parameters.
proof fn lemma_scan_serialized_params(s: Seq<char>, pos: int, acc: RawParts, ps: Seq<Pair>)
    requires
        0 <= pos <= s.len(),
        s.subrange(pos, s.len() as int) == serialize_params(ps),
        acc.sig_len == pos,
        forall|i: int|
            0 <= i < ps.len() ==> valid_token((#[trigger] ps[i]).0) && valid_token(ps[i].1),
    ensures
        parse_params_spec(s, pos, acc) is Ok,
        ({
            let r = parse_params_spec(s, pos, acc)->Ok_0;
            &&& r.ty_end == acc.ty_end
            &&& r.subty_end == acc.subty_end
            &&& r.suffix_end == acc.suffix_end
            &&& r.sig_len == s.len()
            &&& pairs_of(s, r.params) == pairs_of(s, acc.params) + ps
        }),
    decreases ps.len(),
{
    let n = s.len() as int;
    let rest = s.subrange(pos, n);
    if ps.len() == 0 {
        assert(rest.len() == 0);
        assert(pos == n);
        lemma_ows_run(s, pos);
        assert(ows_run(s, pos) == pos);
        assert(pairs_of(s, acc.params) + ps =~= pairs_of(s, acc.params));
    } else {
        let k = ps[0].0;
        let v = ps[0].1;
        let tail = serialize_params(ps.drop_first());
        assert(rest == seq![';', ' '] + k + seq!['='] + v + tail);
        assert forall|o: int| 0 <= o < rest.len() implies s[pos + o] == #[trigger] rest[o] by {
            assert(s.subrange(pos, n)[o] == s[pos + o]);
        }
        let kstart = pos + 2;
        let kend = kstart + k.len() as int;
        let vstart = kend + 1;
        let vend = vstart + v.len() as int;
        assert(rest[0] == ';' && rest[1] == ' ');
        assert(s[pos] == ';' && s[pos + 1] == ' ');
        assert forall|i: int| 0 <= i < k.len() implies s[kstart + i] == #[trigger] k[i] by {
            assert(rest[2 + i] == k[i]);
            assert(s[pos + (2 + i)] == rest[2 + i]);
        }
        assert(s[kend] == '=') by {
            assert(rest[2 + k.len() as int] == '=');
            assert(s[pos + (2 + k.len() as int)] == rest[2 + k.len() as int]);
        }
        assert forall|i: int| 0 <= i < v.len() implies s[vstart + i] == #[trigger] v[i] by {
            assert(rest[3 + k.len() as int + i] == v[i]);
            assert(s[pos + (3 + k.len() as int + i)] == rest[3 + k.len() as int + i]);
        }
        assert(vend <= n);
        assert(';' as int == 59 && ' ' as int == 32 && '=' as int == 61 && '"' as int == 34);
        assert(valid_token(k) && valid_token(v));
        assert(!is_token_char(';') && !is_token_char('=') && !is_ows_char(';'));
        lemma_ows_run_is(s, pos, pos);
        assert(s[kstart] == k[0] && is_token_char(k[0]) && !is_ows_char(k[0]));
        lemma_ows_run_is(s, pos + 1, kstart);
        assert forall|j: int| kstart <= j < kend implies is_token_char(#[trigger] s[j]) by {
            assert(s[kstart + (j - kstart)] == k[j - kstart]);
            assert(is_token_char(k[j - kstart]));
        }
        lemma_token_run_is(s, kstart, kend);
        assert(s[kend + 1] == v[0] && is_token_char(v[0]) && v[0] != '"');
        assert forall|j: int| kend + 1 <= j < vend implies is_token_char(#[trigger] s[j]) by {
            assert(s[vstart + (j - vstart)] == v[j - vstart]);
            assert(is_token_char(v[j - vstart]));
        }
        if vend < n {
            assert(ps.drop_first().len() > 0);
            assert(tail[0] == ';') by {
                assert(tail == seq![';', ' '] + ps.drop_first()[0].0 + seq!['=']
                    + ps.drop_first()[0].1 + serialize_params(ps.drop_first().drop_first()));
            }
            assert(s[vend] == ';') by {
                assert(rest[3 + k.len() as int + v.len() as int] == tail[0]);
                assert(s[pos + (3 + k.len() as int + v.len() as int)] == rest[3 + k.len() as int
                    + v.len() as int]);
            }
        }
        lemma_token_run_is(s, kend + 1, vend);
        let q = QuadSpec { ks: kstart, ke: kend, vs: kend + 1, ve: vend };
        let acc2 = RawParts { params: acc.params.push(q), sig_len: vend, ..acc };
        assert(parse_params_spec(s, pos, acc) == parse_params_spec(s, vend, acc2));
        assert(s.subrange(vend, n) == tail) by {
            assert forall|i: int| 0 <= i < n - vend implies s.subrange(vend, n)[i] == #[trigger] tail[i] by {
                assert(rest[3 + k.len() as int + v.len() as int + i] == tail[i]);
                assert(s[pos + (3 + k.len() as int + v.len() as int + i)] == rest[3 + k.len() as int
                    + v.len() as int + i]);
            }
            assert(s.subrange(vend, n) =~= tail);
        }
        assert forall|i: int|
            0 <= i < ps.drop_first().len() implies valid_token(
            #[trigger] ps.drop_first()[i].0,
        ) && valid_token(ps.drop_first()[i].1) by {
            assert(ps.drop_first()[i] == ps[i + 1]);
        }
        lemma_scan_serialized_params(s, vend, acc2, ps.drop_first());
        let r = parse_params_spec(s, vend, acc2)->Ok_0;
        assert(s.subrange(q.ks, q.ke) =~= k);
        assert(s.subrange(q.vs, q.ve) =~= v);
        assert(pairs_of(s, acc2.params) =~= pairs_of(s, acc.params) + seq![(k, v)]);
        assert(pairs_of(s, r.params) =~= pairs_of(s, acc.params) + ps) by {
            assert(pairs_of(s, r.params) == pairs_of(s, acc2.params) + ps.drop_first());
            assert(ps =~= seq![(k, v)] + ps.drop_first());
        }
    }
}

/// The central theorem of re-parsing: the serialized form of well-formed
/// parts parses back, with no insignificant trailing text, to exactly those
/// parts — in particular with the parameters in the order they were written.
#[verifier::rlimit(100)]
pub proof fn lemma_parse_serialize(m: MtModel)
    requires
        valid_token(m.ty),
        valid_token(m.subty),
        match m.suffix {
            Some(x) => valid_token(x),
            None => true,
        },
        forall|i: int|
            0 <= i < m.params.len() ==> valid_token((#[trigger] m.params[i]).0) && valid_token(
                m.params[i].1,
            ),
        splittable(m),
    ensures
        parse_spec(serialize_model(m)) is Ok,
        model_of(serialize_model(m), parse_spec(serialize_model(m))->Ok_0) == m,
        parse_spec(serialize_model(m))->Ok_0.sig_len == serialize_model(m).len(),
{
    let s = serialize_model(m);
    let n = s.len() as int;
    let t = m.ty.len() as int;
    let sufpart = match m.suffix {
        Some(x) => seq!['+'] + x,
        None => Seq::<char>::empty(),
    };
    let head = m.ty + seq!['/'] + m.subty + sufpart;
    let seg_end = head.len() as int;
    let tail = serialize_params(m.params);
    let p = t + 1 + m.subty.len() as int;
    assert(s == head + tail);
    assert('/' as int == 47 && '+' as int == 43 && ';' as int == 59);
    assert(!is_token_char('/') && is_token_char('+') && !is_token_char(';') && !is_ows_char(';'));
    assert(find_from(s, 0, '/') == Some(t)) by {
        assert forall|j: int| 0 <= j < t implies #[trigger] s[j] != '/' by {
            assert(s[j] == head[j] && head[j] == m.ty[j]);
            assert(is_token_char(m.ty[j]));
        }
        assert(s[t] == head[t] && head[t] == '/');
        lemma_find_from_is(s, 0, '/', t);
    }
    assert(s.subrange(0, t) == m.ty) by {
        assert forall|i: int| 0 <= i < t implies s.subrange(0, t)[i] == #[trigger] m.ty[i] by {
            assert(s[i] == head[i] && head[i] == m.ty[i]);
        }
        assert(s.subrange(0, t) =~= m.ty);
    }
    assert(s.subrange(t + 1, p) == m.subty) by {
        assert forall|i: int| 0 <= i < m.subty.len() implies s.subrange(t + 1, p)[i]
            == #[trigger] m.subty[i] by {
            assert(s[t + 1 + i] == head[t + 1 + i] && head[t + 1 + i] == m.subty[i]);
        }
        assert(s.subrange(t + 1, p) =~= m.subty);
    }
    match m.suffix {
        Some(x) => {
            assert(s[p] == head[p] && head[p] == '+');
            assert(s.subrange(p + 1, seg_end) == x) by {
                assert forall|i: int| 0 <= i < x.len() implies s.subrange(p + 1, seg_end)[i]
                    == #[trigger] x[i] by {
                    assert(s[p + 1 + i] == head[p + 1 + i] && head[p + 1 + i] == x[i]);
                }
                assert(s.subrange(p + 1, seg_end) =~= x);
            }
        },
        None => {},
    }
    assert(token_run(s, t + 1) == seg_end) by {
        assert forall|j: int| t + 1 <= j < seg_end implies is_token_char(#[trigger] s[j]) by {
            assert(s[j] == head[j]);
            if j < p {
                assert(head[j] == m.subty[j - (t + 1)] && is_token_char(m.subty[j - (t + 1)]));
            } else if j == p {
                assert(head[j] == '+');
            } else {
                let x = m.suffix->Some_0;
                assert(head[j] == x[j - (p + 1)] && is_token_char(x[j - (p + 1)]));
            }
        }
        if seg_end < n {
            assert(m.params.len() > 0);
            assert(tail[0] == ';');
            assert(s[seg_end] == tail[0]);
        }
        lemma_token_run_is(s, t + 1, seg_end);
    }
    match m.suffix {
        Some(x) => {
            assert(last_plus(s, t + 1, seg_end) == Some(p)) by {
                assert forall|j: int| p < j < seg_end implies #[trigger] s[j] != '+' by {
                    assert(s[j] == head[j] && head[j] == x[j - (p + 1)]);
                }
                assert(s[p] == '+');
                lemma_last_plus_is(s, t + 1, seg_end, p);
            }
            assert(p != t + 1 && p != seg_end - 1);
        },
        None => {
            assert(last_plus(s, t + 1, seg_end) is None) by {
                assert forall|j: int| t + 1 <= j < seg_end implies #[trigger] s[j] != '+' by {
                    assert(s[j] == head[j] && head[j] == m.subty[j - (t + 1)]);
                }
                lemma_last_plus_none(s, t + 1, seg_end);
            }
        },
    }
    let acc = match m.suffix {
        Some(x) => RawParts {
            ty_end: t,
            subty_end: p,
            suffix_end: Some(seg_end),
            params: Seq::empty(),
            sig_len: seg_end,
        },
        None => RawParts {
            ty_end: t,
            subty_end: seg_end,
            suffix_end: None,
            params: Seq::empty(),
            sig_len: seg_end,
        },
    };
    assert(parse_spec(s) == parse_params_spec(s, seg_end, acc));
    assert(s.subrange(seg_end, n) == tail) by {
        assert forall|i: int| 0 <= i < n - seg_end implies s.subrange(seg_end, n)[i]
            == #[trigger] tail[i] by {
            assert(s[seg_end + i] == tail[i]);
        }
        assert(s.subrange(seg_end, n) =~= tail);
    }
    lemma_scan_serialized_params(s, seg_end, acc, m.params);
    let r = parse_params_spec(s, seg_end, acc)->Ok_0;
    assert(pairs_of(s, acc.params) =~= Seq::<Pair>::empty());
    assert(pairs_of(s, r.params) =~= m.params);
    assert(model_of(s, r) =~= m);
}

/// The model a successful parse of `s` denotes, parameters sorted.
pub open spec fn parsed_model(s: Seq<char>) -> MtModel {
    let m = model_of(s, parse_spec(s)->Ok_0);
    MtModel { params: sort_pairs(m.params), ..m }
}

/// The canonical form of a model: type, subtype, suffix and parameter keys
/// ASCII-lowercased, parameter values untouched, order kept.
pub open spec fn canon_model(m: MtModel) -> MtModel {
    MtModel {
        ty: fold_seq(m.ty),
        subty: fold_seq(m.subty),
        suffix: match m.suffix {
            Some(x) => Some(fold_seq(x)),
            None => None,
        },
        params: m.params.map_values(|p: Pair| (fold_seq(p.0), p.1)),
    }
}

/// Folding keeps a token valid and its length.
pub proof fn lemma_fold_valid_token(x: Seq<char>)
    ensures
        valid_token(fold_seq(x)) == valid_token(x),
{
    if valid_token(x) {
        assert forall|i: int| 0 <= i < fold_seq(x).len() implies is_token_char(
            #[trigger] fold_seq(x)[i],
        ) by {
            crate::grammar::lemma_fold_char_classes(x[i]);
        }
    }
    if valid_token(fold_seq(x)) {
        assert forall|i: int| 0 <= i < x.len() implies is_token_char(#[trigger] x[i]) by {
            crate::grammar::lemma_fold_char_classes(x[i]);
            assert(is_token_char(fold_seq(x)[i]));
        }
    }
}

/// The parameter pairs a vector of token pairs denotes.
pub open spec fn pairs_view(v: Seq<(crate::token::Name, crate::token::Value)>) -> Seq<Pair> {
    v.map_values(|p: (crate::token::Name, crate::token::Value)| (p.0@, p.1@))
}

/// How `pairs_view` indexes: each token pair gives its two views.
pub proof fn lemma_pairs_view_index(v: Seq<(crate::token::Name, crate::token::Value)>)
    ensures
        pairs_view(v).len() == v.len(),
        forall|i: int|
            0 <= i < v.len() ==> pairs_view(v)[i] == ((#[trigger] v[i]).0@, v[i].1@),
{
}

/// How `pairs_of` indexes: each quad gives its two slices of the buffer.
pub proof fn lemma_pairs_of_index(s: Seq<char>, qs: Seq<QuadSpec>)
    ensures
        pairs_of(s, qs).len() == qs.len(),
        forall|i: int|
            0 <= i < qs.len() ==> pairs_of(s, qs)[i] == (
                s.subrange((#[trigger] qs[i]).ks, qs[i].ke),
                s.subrange(qs[i].vs, qs[i].ve),
            ),
{
}

/// Pointwise case-insensitive equality of two parameter lists.
pub open spec fn pairs_sem_eq(x: Seq<Pair>, y: Seq<Pair>) -> bool {
    &&& x.len() == y.len()
    &&& forall|i: int|
        0 <= i < x.len() ==> fold_seq((#[trigger] x[i]).0) == fold_seq(y[i].0) && fold_seq(
            x[i].1,
        ) == fold_seq(y[i].1)
}

/// When two media types are the same media type: type, subtype, suffix,
/// parameter keys and parameter values all agree up to ASCII case, with the
/// parameters compared in their sorted order.
pub open spec fn sem_eq(a: MtModel, b: MtModel) -> bool {
    &&& fold_seq(a.ty) == fold_seq(b.ty)
    &&& fold_seq(a.subty) == fold_seq(b.subty)
    &&& match (a.suffix, b.suffix) {
        (Some(x), Some(y)) => fold_seq(x) == fold_seq(y),
        (None, None) => true,
        _ => false,
    }
    &&& pairs_sem_eq(a.params, b.params)
}

/// Three-way lexicographic comparison by code point; a proper prefix comes
/// before every extension of it.
pub open spec fn lex_cmp(a: Seq<char>, b: Seq<char>) -> core::cmp::Ordering
    decreases a.len(),
{
    if a.len() == 0 && b.len() == 0 {
        core::cmp::Ordering::Equal
    } else if a.len() == 0 {
        core::cmp::Ordering::Less
    } else if b.len() == 0 {
        core::cmp::Ordering::Greater
    } else if a[0] == b[0] {
        lex_cmp(a.drop_first(), b.drop_first())
    } else if (a[0] as int) < (b[0] as int) {
        core::cmp::Ordering::Less
    } else {
        core::cmp::Ordering::Greater
    }
}

/// Three-way comparison of parameter lists: pair by pair, key before value,
/// each through case folding; a shorter list comes first.
pub open spec fn params_cmp(x: Seq<Pair>, y: Seq<Pair>) -> core::cmp::Ordering
    decreases x.len(),
{
    if x.len() == 0 && y.len() == 0 {
        core::cmp::Ordering::Equal
    } else if x.len() == 0 {
        core::cmp::Ordering::Less
    } else if y.len() == 0 {
        core::cmp::Ordering::Greater
    } else {
        let kc = lex_cmp(fold_seq(x[0].0), fold_seq(y[0].0));
        if kc != core::cmp::Ordering::Equal {
            kc
        } else {
            let vc = lex_cmp(fold_seq(x[0].1), fold_seq(y[0].1));
            if vc != core::cmp::Ordering::Equal {
                vc
            } else {
                params_cmp(x.drop_first(), y.drop_first())
            }
        }
    }
}

/// The total order on media types: type, subtype, suffix (none before
/// some), then the sorted parameters, all through case folding.
pub open spec fn model_cmp(a: MtModel, b: MtModel) -> core::cmp::Ordering {
    let tc = lex_cmp(fold_seq(a.ty), fold_seq(b.ty));
    if tc != core::cmp::Ordering::Equal {
        tc
    } else {
        let sc = lex_cmp(fold_seq(a.subty), fold_seq(b.subty));
        if sc != core::cmp::Ordering::Equal {
            sc
        } else {
            let xc = match (a.suffix, b.suffix) {
                (None, None) => core::cmp::Ordering::Equal,
                (None, Some(_)) => core::cmp::Ordering::Less,
                (Some(_), None) => core::cmp::Ordering::Greater,
                (Some(x), Some(y)) => lex_cmp(fold_seq(x), fold_seq(y)),
            };
            if xc != core::cmp::Ordering::Equal {
                xc
            } else {
                params_cmp(a.params, b.params)
            }
        }
    }
}

/// Dropping a common prefix does not change the three-way comparison.
pub proof fn lemma_lex_cmp_skip(a: Seq<char>, b: Seq<char>, i: int)
    requires
        0 <= i <= a.len(),
        i <= b.len(),
        forall|j: int| 0 <= j < i ==> a[j] == b[j],
    ensures
        lex_cmp(a, b) == lex_cmp(a.skip(i), b.skip(i)),
    decreases i,
{
    if i > 0 {
        assert(a.len() > 0 && b.len() > 0 && a[0] == b[0]);
        lemma_lex_cmp_skip(a.drop_first(), b.drop_first(), i - 1);
        assert(a.drop_first().skip(i - 1) =~= a.skip(i));
        assert(b.drop_first().skip(i - 1) =~= b.skip(i));
    } else {
        assert(a.skip(0) =~= a);
        assert(b.skip(0) =~= b);
    }
}

} // verus!
