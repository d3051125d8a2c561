//! The laws of the library, each proved from the contracts in the other
//! modules: round-tripping, order independence of parameters,
//! idempotence of canonicalization, and the behaviour of parameter
//! lookup after an insertion or a removal.
use vstd::prelude::*;

use crate::grammar::fold_seq;
use crate::grammar::lemma_fold_seq_idempotent;
use crate::grammar::lemma_lex_le_total;
use crate::grammar::lex_le;
use crate::model::canon_model;
use crate::model::find_key;
use crate::model::insert_pair;
use crate::model::key_count;
use crate::model::lemma_find_key;
use crate::model::lemma_find_key_none;
use crate::model::lemma_parse_serialize;
use crate::model::lemma_sort_pairs_sorted_id;
use crate::model::lookup;
use crate::model::model_wf;
use crate::model::parsed_model;
use crate::model::serialize_model;
use crate::model::splittable;
use crate::model::MtModel;
use crate::model::Pair;
use crate::grammar::find_from;
use crate::grammar::is_ows_char;
use crate::grammar::is_token_char;
use crate::grammar::last_plus;
use crate::grammar::ows_run;
use crate::grammar::token_run;
use crate::grammar::valid_token;
use crate::parse::parse_spec;

verus! {

/// `lex_le` is antisymmetric: mutual order means equality.
proof fn lemma_lex_le_antisym(a: Seq<char>, b: Seq<char>)
    requires
        lex_le(a, b),
        lex_le(b, a),
    ensures
        a == b,
    decreases a.len(),
{
    if a.len() > 0 && b.len() > 0 && a[0] == b[0] {
        lemma_lex_le_antisym(a.drop_first(), b.drop_first());
        assert(a =~= seq![a[0]] + a.drop_first());
        assert(b =~= seq![b[0]] + b.drop_first());
    } else {
        assert(a =~= b);
    }
}

/// Round trip: serializing any well-formed media type whose suffix (or,
/// absent one, whose subtype) holds no `+` and parsing the result yields
/// exactly the same media type — same casing, same parameter order.
pub proof fn lemma_round_trip(m: MtModel)
    requires
        model_wf(m),
        splittable(m),
    ensures
        parse_spec(serialize_model(m)) is Ok,
        parsed_model(serialize_model(m)) == m,
{
    lemma_parse_serialize(m);
    lemma_sort_pairs_sorted_id(m.params);
    assert(parsed_model(serialize_model(m)) =~= m);
}

/// Canonicalization is idempotent: folding what is already folded changes
/// nothing.
pub proof fn lemma_canonicalize_idempotent(m: MtModel)
    ensures
        canon_model(canon_model(m)) == canon_model(m),
{
    lemma_fold_seq_idempotent(m.ty);
    lemma_fold_seq_idempotent(m.subty);
    match m.suffix {
        Some(x) => {
            lemma_fold_seq_idempotent(x);
        },
        None => {},
    }
    assert forall|i: int| 0 <= i < m.params.len() implies #[trigger] canon_model(
        canon_model(m),
    ).params[i] == canon_model(m).params[i] by {
        lemma_fold_seq_idempotent(m.params[i].0);
    }
    assert(canon_model(canon_model(m)) =~= canon_model(m));
}

/// How `lookup` sees a sorted insertion: the inserted pair is found under
/// its own key if no earlier pair matched it, and every other key's lookup
/// is untouched.
pub proof fn lemma_lookup_push(ps: Seq<Pair>, p: Pair, k: Seq<char>)
    ensures
        lookup(ps.push(p), k) == match lookup(ps, k) {
            Some(v) => Some(v),
            None => if fold_seq(p.0) == fold_seq(k) {
                Some(p.1)
            } else {
                None
            },
        },
    decreases ps.len(),
{
    if ps.len() == 0 {
        assert(ps.push(p).len() == 1);
        assert(ps.push(p)[0] == p);
        assert(ps.push(p).drop_first() =~= Seq::<Pair>::empty());
        assert(lookup(Seq::<Pair>::empty(), k) is None);
        if fold_seq(p.0) == fold_seq(k) {
            assert(lookup(ps.push(p), k) == Some(p.1));
        } else {
            assert(lookup(ps.push(p), k) is None);
        }
        assert(lookup(ps, k) is None);
    } else {
        assert(ps.push(p)[0] == ps[0]);
        assert(ps.push(p).len() == ps.len() + 1);
        assert(ps.push(p).drop_first() =~= ps.drop_first().push(p));
        lemma_lookup_push(ps.drop_first(), p, k);
        if fold_seq(ps[0].0) == fold_seq(k) {
            assert(lookup(ps.push(p), k) == Some(ps[0].1));
            assert(lookup(ps, k) == Some(ps[0].1));
        } else {
            assert(lookup(ps.push(p), k) == lookup(ps.drop_first().push(p), k));
            assert(lookup(ps, k) == lookup(ps.drop_first(), k));
        }
    }
}

/// `lookup` through `insert_pair`: other keys are unaffected, and the new
/// key finds the new value whenever no pair of `ps` already matches it.
pub proof fn lemma_lookup_insert(ps: Seq<Pair>, p: Pair, k: Seq<char>)
    ensures
        fold_seq(k) != fold_seq(p.0) ==> lookup(insert_pair(ps, p), k) == lookup(ps, k),
        fold_seq(k) == fold_seq(p.0) && lookup(ps, k) is None ==> lookup(insert_pair(ps, p), k)
            == Some(p.1),
    decreases ps.len(),
{
    if ps.len() == 0 {
        assert(insert_pair(ps, p) == seq![p]);
        assert(seq![p].len() == 1 && seq![p][0] == p);
        assert(seq![p].drop_first() =~= Seq::<Pair>::empty());
        assert(lookup(Seq::<Pair>::empty(), k) is None);
    } else if lex_le(fold_seq(ps.last().0), fold_seq(p.0)) {
        lemma_lookup_push(ps, p, k);
    } else {
        lemma_lookup_insert(ps.drop_last(), p, k);
        lemma_lookup_push(insert_pair(ps.drop_last(), p), ps.last(), k);
        lemma_lookup_push(ps.drop_last(), ps.last(), k);
        assert(ps.drop_last().push(ps.last()) =~= ps);
    }
}

/// Setter/getter consistency: inserting a parameter under a key that no
/// parameter of a sorted list matches makes that key's lookup return the
/// new value, and leaves the lookup of every other key unchanged.
pub proof fn lemma_set_then_get(ps: Seq<Pair>, k: Seq<char>, v: Seq<char>, other: Seq<char>)
    requires
        lookup(ps, k) is None,
    ensures
        lookup(insert_pair(ps, (k, v)), k) == Some(v),
        fold_seq(other) != fold_seq(k) ==> lookup(insert_pair(ps, (k, v)), other) == lookup(
            ps,
            other,
        ),
{
    lemma_lookup_insert(ps, (k, v), k);
    lemma_lookup_insert(ps, (k, v), other);
}

/// Two insertions under different folded keys land in the same place in
/// either order: the parameters of a media type form a set keyed
/// case-insensitively, not a list in application order.
pub proof fn lemma_insert_order_independent(ps: Seq<Pair>, p: Pair, q: Pair)
    requires
        fold_seq(p.0) != fold_seq(q.0),
    ensures
        insert_pair(insert_pair(ps, p), q) == insert_pair(insert_pair(ps, q), p),
    decreases ps.len(),
{
    let fp = fold_seq(p.0);
    let fq = fold_seq(q.0);
    lemma_lex_le_total(fp, fq);
    if lex_le(fp, fq) && lex_le(fq, fp) {
        lemma_lex_le_antisym(fp, fq);
    }
    if ps.len() == 0 {
        assert(insert_pair(ps, p) == seq![p] && insert_pair(ps, q) == seq![q]);
        assert(seq![p].last() == p && seq![q].last() == q);
        assert(seq![p].drop_last() =~= Seq::<Pair>::empty());
        assert(seq![q].drop_last() =~= Seq::<Pair>::empty());
        assert(insert_pair(Seq::<Pair>::empty(), p) == seq![p]);
        assert(insert_pair(Seq::<Pair>::empty(), q) == seq![q]);
        if lex_le(fp, fq) {
            assert(!lex_le(fq, fp));
            assert(insert_pair(seq![p], q) == seq![p].push(q));
            assert(insert_pair(seq![q], p) == insert_pair(seq![q].drop_last(), p).push(q));
            assert(insert_pair(seq![q], p) == seq![p].push(q));
        } else {
            assert(lex_le(fq, fp));
            assert(insert_pair(seq![q], p) == seq![q].push(p));
            assert(insert_pair(seq![p], q) == insert_pair(seq![p].drop_last(), q).push(p));
            assert(insert_pair(seq![p], q) == seq![q].push(p));
        }
    } else {
        let l = ps.last();
        let fl = fold_seq(l.0);
        if lex_le(fl, fp) && lex_le(fl, fq) {
            assert(insert_pair(ps, p) == ps.push(p) && insert_pair(ps, q) == ps.push(q));
            assert(ps.push(p).last() == p && ps.push(p).drop_last() =~= ps);
            assert(ps.push(q).last() == q && ps.push(q).drop_last() =~= ps);
            if lex_le(fp, fq) {
                assert(insert_pair(ps.push(p), q) == ps.push(p).push(q));
                assert(insert_pair(ps.push(q), p) == insert_pair(ps, p).push(q));
                assert(insert_pair(ps.push(q), p) =~= ps.push(p).push(q));
            } else {
                assert(insert_pair(ps.push(q), p) == ps.push(q).push(p));
                assert(insert_pair(ps.push(p), q) == insert_pair(ps, q).push(p));
                assert(insert_pair(ps.push(p), q) =~= ps.push(q).push(p));
            }
        } else if lex_le(fl, fp) {
            lemma_lex_le_total(fl, fq);
            crate::grammar::lemma_lex_le_trans(fq, fl, fp);
            assert(insert_pair(ps, p) == ps.push(p));
            assert(ps.push(p).last() == p && ps.push(p).drop_last() =~= ps);
            assert(insert_pair(ps.push(p), q) == insert_pair(ps, q).push(p));
            assert(insert_pair(ps, q) == insert_pair(ps.drop_last(), q).push(l));
            assert(insert_pair(ps, q).push(l).last() == l) by {
                assert(insert_pair(ps.drop_last(), q).push(l).last() == l);
            }
            assert(insert_pair(insert_pair(ps, q), p) == insert_pair(ps, q).push(p)) by {
                assert(insert_pair(ps, q).last() == l);
            }
        } else if lex_le(fl, fq) {
            lemma_lex_le_total(fl, fp);
            crate::grammar::lemma_lex_le_trans(fp, fl, fq);
            assert(insert_pair(ps, q) == ps.push(q));
            assert(ps.push(q).last() == q && ps.push(q).drop_last() =~= ps);
            assert(insert_pair(ps.push(q), p) == insert_pair(ps, p).push(q));
            assert(insert_pair(ps, p) == insert_pair(ps.drop_last(), p).push(l));
            assert(insert_pair(insert_pair(ps, p), q) == insert_pair(ps, p).push(q)) by {
                assert(insert_pair(ps, p).last() == l);
            }
        } else {
            lemma_insert_order_independent(ps.drop_last(), p, q);
            assert(insert_pair(ps, p) == insert_pair(ps.drop_last(), p).push(l));
            assert(insert_pair(ps, q) == insert_pair(ps.drop_last(), q).push(l));
            assert(insert_pair(ps, p).last() == l && insert_pair(ps, p).drop_last() =~= insert_pair(
                ps.drop_last(),
                p,
            ));
            assert(insert_pair(ps, q).last() == l && insert_pair(ps, q).drop_last() =~= insert_pair(
                ps.drop_last(),
                q,
            ));
            assert(insert_pair(insert_pair(ps, p), q) == insert_pair(
                insert_pair(ps.drop_last(), p),
                q,
            ).push(l));
            assert(insert_pair(insert_pair(ps, q), p) == insert_pair(
                insert_pair(ps.drop_last(), q),
                p,
            ).push(l));
        }
    }
}

/// A matching pair makes the key's count positive.
proof fn lemma_key_count_pos(ps: Seq<Pair>, k: Seq<char>, i: int)
    requires
        0 <= i < ps.len(),
        fold_seq(ps[i].0) == fold_seq(k),
    ensures
        key_count(ps, k) >= 1,
    decreases i,
{
    if i > 0 {
        assert(ps.drop_first()[i - 1] == ps[i]);
        lemma_key_count_pos(ps.drop_first(), k, i - 1);
    }
}

/// Two distinct matching pairs make the count at least two.
proof fn lemma_key_count_two(ps: Seq<Pair>, k: Seq<char>, i: int, j: int)
    requires
        0 <= i < j < ps.len(),
        fold_seq(ps[i].0) == fold_seq(k),
        fold_seq(ps[j].0) == fold_seq(k),
    ensures
        key_count(ps, k) >= 2,
    decreases i,
{
    if i == 0 {
        assert(ps.drop_first()[j - 1] == ps[j]);
        lemma_key_count_pos(ps.drop_first(), k, j - 1);
    } else {
        assert(ps.drop_first()[i - 1] == ps[i]);
        assert(ps.drop_first()[j - 1] == ps[j]);
        lemma_key_count_two(ps.drop_first(), k, i - 1, j - 1);
    }
}

/// Removal: taking out the one parameter matching a key — a key carried by
/// at most one parameter — leaves nothing for a second lookup to find.
pub proof fn lemma_remove_then_get(ps: Seq<Pair>, k: Seq<char>)
    requires
        key_count(ps, k) <= 1,
        find_key(ps, k) is Some,
    ensures
        lookup(ps.remove(find_key(ps, k)->Some_0), k) is None,
{
    let i = find_key(ps, k)->Some_0;
    lemma_find_key(ps, k);
    ps.remove_ensures(i);
    assert forall|j: int| 0 <= j < ps.remove(i).len() implies fold_seq(
        (#[trigger] ps.remove(i)[j]).0,
    ) != fold_seq(k) by {
        if j < i {
            assert(ps.remove(i)[j] == ps[j]);
        } else {
            assert(ps.remove(i)[j] == ps[j + 1]);
            if fold_seq(ps[j + 1].0) == fold_seq(k) {
                lemma_key_count_two(ps, k, i, j + 1);
            }
        }
    }
    lemma_find_key_none(ps.remove(i), k);
}

/// Folding never changes where a run of token characters ends.
proof fn lemma_fold_token_run(s: Seq<char>, i: int)
    requires
        0 <= i <= s.len(),
    ensures
        token_run(fold_seq(s), i) == token_run(s, i),
    decreases s.len() - i,
{
    if i < s.len() {
        crate::grammar::lemma_fold_char_classes(s[i]);
        assert(fold_seq(s)[i] == crate::grammar::fold_char(s[i]));
        if is_token_char(s[i]) {
            lemma_fold_token_run(s, i + 1);
        }
    }
}

/// Folding never changes where a run of whitespace ends.
proof fn lemma_fold_ows_run(s: Seq<char>, i: int)
    requires
        0 <= i <= s.len(),
    ensures
        ows_run(fold_seq(s), i) == ows_run(s, i),
    decreases s.len() - i,
{
    if i < s.len() {
        crate::grammar::lemma_fold_char_classes(s[i]);
        assert(fold_seq(s)[i] == crate::grammar::fold_char(s[i]));
        if is_ows_char(s[i]) {
            lemma_fold_ows_run(s, i + 1);
        }
    }
}

/// Folding never moves a character that is no lowercase letter.
proof fn lemma_fold_find_from(s: Seq<char>, i: int, c: char)
    requires
        0 <= i <= s.len(),
        !(97 <= c as int <= 122),
        !(65 <= c as int <= 90),
    ensures
        find_from(fold_seq(s), i, c) == find_from(s, i, c),
    decreases s.len() - i,
{
    if i < s.len() {
        assert(fold_seq(s)[i] == crate::grammar::fold_char(s[i]));
        assert((crate::grammar::fold_char(s[i]) == c) == (s[i] == c));
        if s[i] != c {
            lemma_fold_find_from(s, i + 1, c);
        }
    }
}

/// Folding never moves a `+`.
proof fn lemma_fold_last_plus(s: Seq<char>, from: int, to: int)
    requires
        0 <= from <= to <= s.len(),
    ensures
        last_plus(fold_seq(s), from, to) == last_plus(s, from, to),
    decreases to - from,
{
    if to > from {
        assert(fold_seq(s)[to - 1] == crate::grammar::fold_char(s[to - 1]));
        crate::grammar::lemma_fold_char_classes(s[to - 1]);
        if s[to - 1] != '+' {
            lemma_fold_last_plus(s, from, to - 1);
        }
    }
}

/// The parameter scan reads only character classes and separators, none of
/// which folding changes: it returns the very same ranges on the folded
/// input.
proof fn lemma_fold_scan(s: Seq<char>, pos: int, acc: crate::parse::RawParts)
    requires
        0 <= pos <= s.len(),
    ensures
        crate::parse::parse_params_spec(fold_seq(s), pos, acc) == crate::parse::parse_params_spec(
            s,
            pos,
            acc,
        ),
    decreases s.len() - pos,
{
    let f = fold_seq(s);
    lemma_fold_ows_run(s, pos);
    let ws = ows_run(s, pos);
    crate::grammar::lemma_ows_run(s, pos);
    if ws < s.len() {
        assert(f[ws] == crate::grammar::fold_char(s[ws]));
        crate::grammar::lemma_fold_char_classes(s[ws]);
        if s[ws] == ';' && ws + 1 < s.len() {
            lemma_fold_ows_run(s, ws + 1);
            let kstart = ows_run(s, ws + 1);
            crate::grammar::lemma_ows_run(s, ws + 1);
            if kstart < s.len() {
                lemma_fold_token_run(s, kstart);
                let kend = token_run(s, kstart);
                crate::grammar::lemma_token_run(s, kstart);
                if kend != kstart && kend < s.len() {
                    assert(f[kend] == crate::grammar::fold_char(s[kend]));
                    crate::grammar::lemma_fold_char_classes(s[kend]);
                    if s[kend] == '=' {
                        if kend + 1 < s.len() {
                            assert(f[kend + 1] == crate::grammar::fold_char(s[kend + 1]));
                            crate::grammar::lemma_fold_char_classes(s[kend + 1]);
                        }
                        if kend + 1 < s.len() && s[kend + 1] == '"' {
                            lemma_fold_token_run(s, kend + 2);
                            let cend = token_run(s, kend + 2);
                            crate::grammar::lemma_token_run(s, kend + 2);
                            if cend != kend + 2 && cend < s.len() {
                                assert(f[cend] == crate::grammar::fold_char(s[cend]));
                                crate::grammar::lemma_fold_char_classes(s[cend]);
                                if s[cend] == '"' {
                                    lemma_fold_scan(
                                        s,
                                        cend + 1,
                                        crate::parse::RawParts {
                                            params: acc.params.push(
                                                crate::parse::QuadSpec {
                                                    ks: kstart,
                                                    ke: kend,
                                                    vs: kend + 2,
                                                    ve: cend,
                                                },
                                            ),
                                            sig_len: cend + 1,
                                            ..acc
                                        },
                                    );
                                }
                            }
                        } else {
                            lemma_fold_token_run(s, kend + 1);
                            let vend = token_run(s, kend + 1);
                            crate::grammar::lemma_token_run(s, kend + 1);
                            if vend != kend + 1 {
                                lemma_fold_scan(
                                    s,
                                    vend,
                                    crate::parse::RawParts {
                                        params: acc.params.push(
                                            crate::parse::QuadSpec {
                                                ks: kstart,
                                                ke: kend,
                                                vs: kend + 1,
                                                ve: vend,
                                            },
                                        ),
                                        sig_len: vend,
                                        ..acc
                                    },
                                );
                            }
                        }
                    }
                }
            }
        }
    }
}

/// Folding an input changes nothing the grammar looks at: the scan of the
/// folded input yields the very same ranges, or the very same error.
pub proof fn lemma_fold_parse(s: Seq<char>)
    ensures
        parse_spec(fold_seq(s)) == parse_spec(s),
{
    let f = fold_seq(s);
    lemma_fold_find_from(s, 0, '/');
    crate::grammar::lemma_find_from(s, 0, '/');
    match find_from(s, 0, '/') {
        None => {},
        Some(slash) => {
            assert(valid_token(f.subrange(0, slash)) == valid_token(s.subrange(0, slash))) by {
                assert(f.subrange(0, slash) =~= fold_seq(s.subrange(0, slash))) by {
                    assert forall|j: int| 0 <= j < slash implies f.subrange(0, slash)[j]
                        == #[trigger] fold_seq(s.subrange(0, slash))[j] by {
                        assert(s.subrange(0, slash)[j] == s[j]);
                    }
                }
                crate::model::lemma_fold_valid_token(s.subrange(0, slash));
            }
            if valid_token(s.subrange(0, slash)) {
                lemma_fold_token_run(s, slash + 1);
                let seg_end = token_run(s, slash + 1);
                crate::grammar::lemma_token_run(s, slash + 1);
                if seg_end != slash + 1 {
                    lemma_fold_last_plus(s, slash + 1, seg_end);
                    lemma_fold_scan(
                        s,
                        seg_end,
                        crate::parse::RawParts {
                            ty_end: slash,
                            subty_end: seg_end,
                            suffix_end: None,
                            params: Seq::empty(),
                            sig_len: seg_end,
                        },
                    );
                    match crate::grammar::last_plus(s, slash + 1, seg_end) {
                        Some(p) => {
                            if p != slash + 1 && p != seg_end - 1 {
                                lemma_fold_scan(
                                    s,
                                    seg_end,
                                    crate::parse::RawParts {
                                        ty_end: slash,
                                        subty_end: p,
                                        suffix_end: Some(seg_end),
                                        params: Seq::empty(),
                                        sig_len: seg_end,
                                    },
                                );
                            }
                        },
                        None => {},
                    }
                }
            }
        },
    }
}

/// Two strings with the same folded characters have fold-equal slices.
proof fn lemma_fold_subrange_eq(s1: Seq<char>, s2: Seq<char>, a: int, b: int)
    requires
        fold_seq(s1) == fold_seq(s2),
        0 <= a <= b <= s1.len(),
    ensures
        fold_seq(s1.subrange(a, b)) == fold_seq(s2.subrange(a, b)),
{
    assert(s2.len() == s1.len()) by {
        assert(fold_seq(s1).len() == s1.len() && fold_seq(s2).len() == s2.len());
    }
    assert forall|j: int| 0 <= j < b - a implies fold_seq(s1.subrange(a, b))[j]
        == #[trigger] fold_seq(s2.subrange(a, b))[j] by {
        assert(s1.subrange(a, b)[j] == s1[a + j] && s2.subrange(a, b)[j] == s2[a + j]);
        assert(fold_seq(s1.subrange(a, b))[j] == crate::grammar::fold_char(s1.subrange(a, b)[j]));
        assert(fold_seq(s2.subrange(a, b))[j] == crate::grammar::fold_char(s2.subrange(a, b)[j]));
        assert(fold_seq(s1)[a + j] == crate::grammar::fold_char(s1[a + j]));
        assert(fold_seq(s2)[a + j] == crate::grammar::fold_char(s2[a + j]));
        assert(fold_seq(s1)[a + j] == fold_seq(s2)[a + j]);
    }
    assert(fold_seq(s1.subrange(a, b)) =~= fold_seq(s2.subrange(a, b)));
}

/// Sorted insertion sends fold-equal pairs into fold-equal places.
proof fn lemma_insert_fold_congruent(x: Seq<Pair>, y: Seq<Pair>, p: Pair, q: Pair)
    requires
        crate::model::pairs_sem_eq(x, y),
        fold_seq(p.0) == fold_seq(q.0),
        fold_seq(p.1) == fold_seq(q.1),
    ensures
        crate::model::pairs_sem_eq(insert_pair(x, p), insert_pair(y, q)),
    decreases x.len(),
{
    if x.len() == 0 {
        assert(insert_pair(x, p) == seq![p] && insert_pair(y, q) == seq![q]);
        assert(seq![p][0] == p && seq![q][0] == q);
    } else {
        assert(fold_seq(x.last().0) == fold_seq(y.last().0) && fold_seq(x.last().1) == fold_seq(
            y.last().1,
        )) by {
            assert(x[x.len() - 1] == x.last() && y[y.len() - 1] == y.last());
        }
        if lex_le(fold_seq(x.last().0), fold_seq(p.0)) {
            assert(insert_pair(x, p) == x.push(p) && insert_pair(y, q) == y.push(q));
            assert forall|k: int| 0 <= k < x.len() + 1 implies fold_seq(
                (#[trigger] x.push(p)[k]).0,
            ) == fold_seq(y.push(q)[k].0) && fold_seq(x.push(p)[k].1) == fold_seq(
                y.push(q)[k].1,
            ) by {
                if k < x.len() {
                    assert(x.push(p)[k] == x[k] && y.push(q)[k] == y[k]);
                } else {
                    assert(x.push(p)[k] == p && y.push(q)[k] == q);
                }
            }
        } else {
            assert(crate::model::pairs_sem_eq(x.drop_last(), y.drop_last())) by {
                assert forall|k: int| 0 <= k < x.len() - 1 implies fold_seq(
                    (#[trigger] x.drop_last()[k]).0,
                ) == fold_seq(y.drop_last()[k].0) && fold_seq(x.drop_last()[k].1) == fold_seq(
                    y.drop_last()[k].1,
                ) by {
                    assert(x.drop_last()[k] == x[k] && y.drop_last()[k] == y[k]);
                }
            }
            lemma_insert_fold_congruent(x.drop_last(), y.drop_last(), p, q);
            let ix = insert_pair(x.drop_last(), p);
            let iy = insert_pair(y.drop_last(), q);
            assert(insert_pair(x, p) == ix.push(x.last()) && insert_pair(y, q) == iy.push(
                y.last(),
            ));
            assert forall|k: int| 0 <= k < ix.len() + 1 implies fold_seq(
                (#[trigger] ix.push(x.last())[k]).0,
            ) == fold_seq(iy.push(y.last())[k].0) && fold_seq(ix.push(x.last())[k].1) == fold_seq(
                iy.push(y.last())[k].1,
            ) by {
                assert(ix.len() == iy.len());
                if k < ix.len() {
                    assert(ix.push(x.last())[k] == ix[k] && iy.push(y.last())[k] == iy[k]);
                } else {
                    assert(ix.push(x.last())[k] == x.last() && iy.push(y.last())[k] == y.last());
                }
            }
            assert(insert_pair(x, p).len() == insert_pair(y, q).len());
        }
    }
}

/// Sorting sends fold-equal parameter lists to fold-equal parameter lists.
proof fn lemma_sort_fold_congruent(x: Seq<Pair>, y: Seq<Pair>)
    requires
        crate::model::pairs_sem_eq(x, y),
    ensures
        crate::model::pairs_sem_eq(crate::model::sort_pairs(x), crate::model::sort_pairs(y)),
    decreases x.len(),
{
    if x.len() > 0 {
        assert(crate::model::pairs_sem_eq(x.drop_last(), y.drop_last())) by {
            assert forall|k: int| 0 <= k < x.len() - 1 implies fold_seq(
                (#[trigger] x.drop_last()[k]).0,
            ) == fold_seq(y.drop_last()[k].0) && fold_seq(x.drop_last()[k].1) == fold_seq(
                y.drop_last()[k].1,
            ) by {
                assert(x.drop_last()[k] == x[k] && y.drop_last()[k] == y[k]);
            }
        }
        lemma_sort_fold_congruent(x.drop_last(), y.drop_last());
        assert(fold_seq(x.last().0) == fold_seq(y.last().0) && fold_seq(x.last().1) == fold_seq(
            y.last().1,
        )) by {
            assert(x[x.len() - 1] == x.last() && y[y.len() - 1] == y.last());
        }
        lemma_insert_fold_congruent(
            crate::model::sort_pairs(x.drop_last()),
            crate::model::sort_pairs(y.drop_last()),
            x.last(),
            y.last(),
        );
    }
}

/// Case-insensitivity: two inputs whose characters fold alike are accepted
/// or rejected together, and on acceptance denote the same media type.
pub proof fn lemma_parse_case_insensitive(s1: Seq<char>, s2: Seq<char>)
    requires
        fold_seq(s1) == fold_seq(s2),
    ensures
        parse_spec(s1) is Ok <==> parse_spec(s2) is Ok,
        parse_spec(s1) is Ok ==> crate::model::sem_eq(parsed_model(s1), parsed_model(s2)),
{
    lemma_fold_parse(s1);
    lemma_fold_parse(s2);
    assert(parse_spec(s1) == parse_spec(s2));
    if parse_spec(s1) is Ok {
        crate::model::lemma_parse_wf(s1);
        crate::model::lemma_parse_wf(s2);
        let raw = parse_spec(s1)->Ok_0;
        let m1 = crate::model::model_of(s1, raw);
        let m2 = crate::model::model_of(s2, raw);
        assert(s2.len() == s1.len()) by {
            assert(fold_seq(s1).len() == s1.len() && fold_seq(s2).len() == s2.len());
        }
        lemma_fold_subrange_eq(s1, s2, 0, raw.ty_end);
        lemma_fold_subrange_eq(s1, s2, raw.ty_end + 1, raw.subty_end);
        match raw.suffix_end {
            Some(e) => {
                lemma_fold_subrange_eq(s1, s2, raw.subty_end + 1, e);
            },
            None => {},
        }
        assert(crate::model::pairs_sem_eq(m1.params, m2.params)) by {
            crate::model::lemma_pairs_of_index(s1, raw.params);
            crate::model::lemma_pairs_of_index(s2, raw.params);
            assert forall|k: int| 0 <= k < m1.params.len() implies fold_seq(
                (#[trigger] m1.params[k]).0,
            ) == fold_seq(m2.params[k].0) && fold_seq(m1.params[k].1) == fold_seq(
                m2.params[k].1,
            ) by {
                let qd = raw.params[k];
                lemma_fold_subrange_eq(s1, s2, qd.ks, qd.ke);
                lemma_fold_subrange_eq(s1, s2, qd.vs, qd.ve);
            }
        }
        lemma_sort_fold_congruent(m1.params, m2.params);
    }
}

/// The end of the structural part `type/subtype[+suffix]` of a scan result.
pub open spec fn structural_end(raw: crate::parse::RawParts) -> int {
    match raw.suffix_end {
        Some(e) => e,
        None => raw.subty_end,
    }
}

/// Essence correctness: in the kept buffer of a parsed input whose first
/// `;` (when parameters or trailing text follow at all) comes right after
/// the structural part, the prefix before the first `;` is exactly
/// `type/subtype[+suffix]` — and a trailing `;` with only whitespace after
/// it leaves no separator behind, since the buffer stops at the subtype or
/// suffix.
pub proof fn lemma_essence_structural(s: Seq<char>)
    requires
        parse_spec(s) is Ok,
        ({
            let raw = parse_spec(s)->Ok_0;
            structural_end(raw) < raw.sig_len ==> s[structural_end(raw)] == ';'
        }),
    ensures
        ({
            let raw = parse_spec(s)->Ok_0;
            crate::media_type_buf::essence_of(s.subrange(0, raw.sig_len)) == s.subrange(
                0,
                structural_end(raw),
            )
        }),
{
    let raw = parse_spec(s)->Ok_0;
    let e = structural_end(raw);
    let data = s.subrange(0, raw.sig_len);
    crate::model::lemma_parse_wf(s);
    let slash = find_from(s, 0, '/')->Some_0;
    crate::grammar::lemma_find_from(s, 0, '/');
    let seg_end = token_run(s, slash + 1);
    crate::grammar::lemma_token_run(s, slash + 1);
    let base = crate::parse::RawParts {
        ty_end: slash,
        subty_end: seg_end,
        suffix_end: None,
        params: Seq::empty(),
        sig_len: seg_end,
    };
    let acc = match last_plus(s, slash + 1, seg_end) {
        Some(pp) => crate::parse::RawParts {
            subty_end: pp,
            suffix_end: Some(seg_end),
            ..base
        },
        None => base,
    };
    assert(parse_spec(s) == crate::parse::parse_params_spec(s, seg_end, acc));
    crate::model::lemma_parse_params_wf(s, seg_end, acc);
    assert(slash == raw.ty_end);
    assert(e == seg_end);
    assert(';' as int == 59 && !is_token_char(';') && ';' != '/');
    assert forall|j: int| 0 <= j < e implies #[trigger] data[j] != ';' by {
        assert(data[j] == s[j]);
        if j < slash {
            assert(s[j] != '/');
            assert(is_token_char(s.subrange(0, slash)[j]) && s.subrange(0, slash)[j] == s[j]);
        } else if j == slash {
            assert(s[j] == '/');
        } else {
            assert(is_token_char(s[j]));
        }
    }
    if e < raw.sig_len {
        assert(data[e] == s[e] && s[e] == ';');
        crate::grammar::lemma_find_from_is(data, 0, ';', e);
        assert(data.subrange(0, e) =~= s.subrange(0, e));
    } else {
        assert(e == raw.sig_len);
        crate::grammar::lemma_find_from_none(data, 0, ';');
        assert(data =~= s.subrange(0, e));
    }
}

} // verus!
