//! The mutable, structured media type.
use vstd::prelude::*;

use crate::grammar::fold_seq;
use crate::grammar::lex_le;
use crate::model::find_key;
use crate::model::insert_pair;
use crate::model::lemma_find_key_is;
use crate::model::lemma_find_key_none;
use crate::model::lemma_insert_at_sorted;
use crate::model::lemma_insert_pair_at;
use crate::model::lemma_parse_wf;
use crate::model::lookup;
use crate::model::model_of;
use crate::model::model_wf;
use crate::model::pairs_of;
use crate::model::pairs_view;
use crate::model::parsed_model;
use crate::model::quad_ok;
use crate::model::serialize_model;
use crate::model::serialize_params;
use crate::model::sort_pairs;
use crate::model::MtModel;
use crate::model::Pair;
use crate::params::quads_view;
use crate::params::sort_quads;
use crate::parse::parse_indices;
use crate::parse::parse_spec;
use crate::parse::ParseError;
use crate::token::copy_range;
use crate::token::fold_eq;
use crate::token::fold_le;
use crate::token::push_char;
use crate::token::Name;
use crate::token::Value;

verus! {

/// A parsed media type: top-level type, subtype, optional suffix, and
/// parameters sorted by case-insensitively folded key.
#[derive(Debug)]
pub struct MediaType {
    ty: Name,
    subty: Name,
    suffix: Option<Name>,
    params: Vec<(Name, Value)>,
}

impl View for MediaType {
    type V = MtModel;

    closed spec fn view(&self) -> MtModel {
        MtModel {
            ty: self.ty@,
            subty: self.subty@,
            suffix: match self.suffix {
                Some(n) => Some(n@),
                None => None,
            },
            params: pairs_view(self.params@),
        }
    }
}

impl MediaType {
    /// All tokens are valid and the parameter list is sorted.
    pub open spec fn wf(&self) -> bool {
        model_wf(self@)
    }

    /// Constructs a media type from a top-level type and a subtype.
    pub fn new(ty: Name, subty: Name) -> (r: MediaType)
        requires
            ty.wf(),
            subty.wf(),
        ensures
            r@ == (MtModel {
                ty: ty@,
                subty: subty@,
                suffix: None,
                params: Seq::empty(),
            }),
            r.wf(),
    {
        let r = MediaType { ty, subty, suffix: None, params: Vec::new() };
        proof {
            assert(pairs_view(r.params@) =~= Seq::<Pair>::empty());
        }
        r
    }

    /// Constructs a media type from all its parts, with at most one
    /// parameter; keys cannot collide when there is only one.
    pub fn from_parts(
        ty: Name,
        subty: Name,
        suffix: Option<Name>,
        param: Option<(Name, Value)>,
    ) -> (r: MediaType)
        requires
            ty.wf(),
            subty.wf(),
            match suffix {
                Some(x) => x.wf(),
                None => true,
            },
            match param {
                Some(p) => p.0.wf() && p.1.wf(),
                None => true,
            },
        ensures
            r@ == (MtModel {
                ty: ty@,
                subty: subty@,
                suffix: match suffix {
                    Some(x) => Some(x@),
                    None => None,
                },
                params: match param {
                    Some(p) => seq![(p.0@, p.1@)],
                    None => Seq::empty(),
                },
            }),
            r.wf(),
    {
        let mut params: Vec<(Name, Value)> = Vec::new();
        match param {
            Some(p) => {
                let ghost gp = p;
                params.push(p);
                proof {
                    assert(param == Some(gp));
                    assert(pairs_view(params@) =~= seq![(gp.0@, gp.1@)]);
                }
            },
            None => {
                proof {
                    assert(pairs_view(params@) =~= Seq::<Pair>::empty());
                }
            },
        }
        MediaType { ty, subty, suffix, params }
    }

    /// Parses a media type; on success the result denotes exactly the parsed
    /// model, its parameters stable-sorted by folded key.
    pub fn parse(s: &str) -> (r: Result<MediaType, ParseError>)
        ensures
            match r {
                Ok(m) => parse_spec(s@) is Ok && m@ == parsed_model(s@) && m.wf()
                    && crate::model::splittable(m@),
                Err(e) => parse_spec(s@) == Err::<crate::parse::RawParts, ParseError>(e),
            },
    {
        let (ind, _sig) = match parse_indices(s) {
            Ok(x) => x,
            Err(e) => {
                return Err(e);
            },
        };
        proof {
            lemma_parse_wf(s@);
        }
        let ghost raw = parse_spec(s@)->Ok_0;
        let ghost m0 = model_of(s@, raw);
        proof {
            assert(quads_view(ind.params@) =~= raw.params);
            assert forall|k: int| 0 <= k < ind.params@.len() implies quad_ok(
                s@,
                (#[trigger] ind.params@[k])@,
                raw.sig_len,
            ) by {
                assert((ind.params@[k])@ == raw.params[k]);
            }
        }
        let sorted = sort_quads(s, &ind.params, Ghost(raw.sig_len));
        proof {
            assert(pairs_of(s@, quads_view(ind.params@)) =~= pairs_of(s@, raw.params));
        }
        let ty = Name::from_text(copy_range(s, 0, ind.ty_end));
        let subty = Name::from_text(copy_range(s, ind.ty_end + 1, ind.subty_end));
        let suffix = match ind.suffix_end {
            Some(e) => Some(Name::from_text(copy_range(s, ind.subty_end + 1, e))),
            None => None,
        };
        let mut params: Vec<(Name, Value)> = Vec::new();
        let ghost target = pairs_of(s@, quads_view(sorted@));
        proof {
            assert(pairs_view(params@) =~= target.subrange(0, 0));
        }
        let mut i: usize = 0;
        while i < sorted.len()
            invariant
                0 <= i <= sorted@.len(),
                target == pairs_of(s@, quads_view(sorted@)),
                forall|k: int|
                    0 <= k < sorted@.len() ==> quad_ok(s@, (#[trigger] sorted@[k])@, raw.sig_len),
                raw.sig_len <= s@.len(),
                pairs_view(params@) == target.subrange(0, i as int),
            decreases sorted@.len() - i,
        {
            let q = sorted[i];
            let key = Name::from_text(copy_range(s, q.ks, q.ke));
            let value = Value::from_text(copy_range(s, q.vs, q.ve));
            let ghost prev = params@;
            params.push((key, value));
            i = i + 1;
            proof {
                crate::model::lemma_pairs_view_index(params@);
                crate::model::lemma_pairs_view_index(prev);
                crate::model::lemma_pairs_of_index(s@, quads_view(sorted@));
                assert(quads_view(sorted@)[i - 1] == q@);
                assert forall|k: int| 0 <= k < i implies pairs_view(params@)[k]
                    == #[trigger] target.subrange(0, i as int)[k] by {
                    if k < i - 1 {
                        assert(params@[k] == prev[k]);
                        assert(pairs_view(prev)[k] == target[k]);
                    } else {
                        assert(params@[k] == (key, value));
                    }
                }
                assert(pairs_view(params@) =~= target.subrange(0, i as int));
            }
        }
        let r = MediaType { ty, subty, suffix, params };
        proof {
            assert(pairs_view(r.params@) =~= target);
            assert(r@ =~= parsed_model(s@));
            assert(crate::model::splittable(r@)) by {
                assert(r@.subty == m0.subty && r@.suffix == m0.suffix);
            }
        }
        Ok(r)
    }

    /// The top-level type, in its original casing.
    pub fn ty(&self) -> (r: &str)
        ensures
            r@ == self@.ty,
    {
        self.ty.as_str()
    }

    /// The subtype, in its original casing.
    pub fn subty(&self) -> (r: &str)
        ensures
            r@ == self@.subty,
    {
        self.subty.as_str()
    }

    /// The suffix, in its original casing, if any.
    pub fn suffix(&self) -> (r: Option<&str>)
        ensures
            match r {
                Some(x) => self@.suffix == Some(x@),
                None => self@.suffix is None,
            },
    {
        match &self.suffix {
            Some(n) => Some(n.as_str()),
            None => None,
        }
    }

    /// Replaces the top-level type.
    pub fn set_ty(&mut self, ty: Name)
        ensures
            final(self)@ == (MtModel { ty: ty@, ..old(self)@ }),
    {
        self.ty = ty;
    }

    /// Replaces the subtype.
    pub fn set_subty(&mut self, subty: Name)
        ensures
            final(self)@ == (MtModel { subty: subty@, ..old(self)@ }),
    {
        self.subty = subty;
    }

    /// Replaces or removes the suffix.
    pub fn set_suffix(&mut self, suffix: Option<Name>)
        ensures
            final(self)@ == (MtModel {
                suffix: match suffix {
                    Some(x) => Some(x@),
                    None => None,
                },
                ..old(self)@
            }),
    {
        self.suffix = suffix;
    }

    /// The parameters, sorted by case-insensitively folded key.
    pub fn params(&self) -> (r: Vec<(Name, Value)>)
        ensures
            pairs_view(r@) == self@.params,
    {
        let mut out: Vec<(Name, Value)> = Vec::new();
        proof {
            assert(pairs_view(out@) =~= self@.params.subrange(0, 0));
        }
        let mut i: usize = 0;
        while i < self.params.len()
            invariant
                0 <= i <= self.params@.len(),
                pairs_view(self.params@) == self@.params,
                pairs_view(out@) == self@.params.subrange(0, i as int),
            decreases self.params@.len() - i,
        {
            let p = &self.params[i];
            let ghost prev = out@;
            out.push((p.0.duplicate(), p.1.duplicate()));
            i = i + 1;
            proof {
                crate::model::lemma_pairs_view_index(out@);
                crate::model::lemma_pairs_view_index(prev);
                crate::model::lemma_pairs_view_index(self.params@);
                assert forall|k: int| 0 <= k < i implies pairs_view(out@)[k]
                    == #[trigger] self@.params.subrange(0, i as int)[k] by {
                    if k < i - 1 {
                        assert(out@[k] == prev[k]);
                        assert(pairs_view(prev)[k] == self@.params[k]);
                    } else {
                        assert(pairs_view(out@)[k] == (out@[k].0@, out@[k].1@));
                        assert(self@.params[k] == (self.params@[k].0@, self.params@[k].1@));
                    }
                }
                assert(pairs_view(out@) =~= self@.params.subrange(0, i as int));
            }
        }
        proof {
            assert(self@.params.subrange(0, self@.params.len() as int) =~= self@.params);
        }
        out
    }

    /// The value of the first parameter whose key matches `key`
    /// case-insensitively, in its original casing, if any.
    pub fn get_param(&self, key: &Name) -> (r: Option<String>)
        ensures
            match r {
                Some(v) => lookup(self@.params, key@) == Some(v@),
                None => lookup(self@.params, key@) is None,
            },
    {
        let mut i: usize = 0;
        while i < self.params.len()
            invariant
                0 <= i <= self.params@.len(),
                pairs_view(self.params@) == self@.params,
                forall|j: int|
                    0 <= j < i ==> fold_seq((#[trigger] self@.params[j]).0) != fold_seq(key@),
            decreases self.params@.len() - i,
        {
            let p = &self.params[i];
            if fold_eq(p.0.as_str(), key.as_str()) {
                proof {
                    lemma_find_key_is(self@.params, key@, i as int);
                }
                return Some(p.1.as_str().to_owned());
            }
            i = i + 1;
        }
        proof {
            lemma_find_key_none(self@.params, key@);
        }
        None
    }

    /// Sets a parameter.  If a key matches case-insensitively, the first such
    /// parameter keeps its stored key and takes the new value, and its old
    /// value is returned; otherwise the pair is inserted at its sorted place
    /// and nothing is returned.
    pub fn set_param(&mut self, key: Name, value: Value) -> (r: Option<String>)
        requires
            old(self).wf(),
            key.wf(),
            value.wf(),
        ensures
            final(self).wf(),
            final(self)@.ty == old(self)@.ty,
            final(self)@.subty == old(self)@.subty,
            final(self)@.suffix == old(self)@.suffix,
            match find_key(old(self)@.params, key@) {
                Some(i) => r matches Some(prev) && prev@ == old(self)@.params[i].1 && final(self)@.params == old(self)@.params.update(i, (old(self)@.params[i].0, value@)),
                None => r is None && final(self)@.params == insert_pair(
                    old(self)@.params,
                    (key@, value@),
                ),
            },
    {
        let ghost ops = self@.params;
        let mut i: usize = 0;
        while i < self.params.len()
            invariant
                0 <= i <= self.params@.len(),
                self@ == old(self)@,
                ops == old(self)@.params,
                old(self).wf(),
                key.wf(),
                value.wf(),
                forall|j: int| 0 <= j < i ==> fold_seq((#[trigger] ops[j]).0) != fold_seq(key@),
            decreases self.params@.len() - i,
        {
            let found = fold_eq(self.params[i].0.as_str(), key.as_str());
            if found {
                proof {
                    lemma_find_key_is(ops, key@, i as int);
                }
                let ghost before = self.params@;
                let old_pair = self.params.remove(i);
                let prev = old_pair.1.as_str().to_owned();
                let ghost rem = self.params@;
                self.params.insert(i, (old_pair.0, value));
                proof {
                    before.remove_ensures(i as int);
                    rem.insert_ensures(i as int, (before[i as int].0, value));
                    crate::model::lemma_pairs_view_index(before);
                    crate::model::lemma_pairs_view_index(self.params@);
                    assert(self.params@ == rem.insert(i as int, (before[i as int].0, value)));
                    assert forall|k: int| 0 <= k < ops.len() implies pairs_view(self.params@)[k]
                        == #[trigger] ops.update(i as int, (ops[i as int].0, value@))[k] by {
                        if k < i {
                            assert(self.params@[k] == rem[k] && rem[k] == before[k]);
                        } else if k == i {
                            assert(self.params@[k] == (before[i as int].0, value));
                        } else {
                            assert(self.params@[k] == rem[k - 1] && rem[k - 1] == before[k]);
                        }
                    }
                    assert(pairs_view(self.params@) =~= ops.update(
                        i as int,
                        (ops[i as int].0, value@),
                    ));
                    assert forall|a: int, b: int|
                        0 <= a < b < self@.params.len() implies lex_le(
                        fold_seq((#[trigger] self@.params[a]).0),
                        fold_seq((#[trigger] self@.params[b]).0),
                    ) by {
                        assert(self@.params[a].0 == ops[a].0);
                        assert(self@.params[b].0 == ops[b].0);
                    }
                }
                return Some(prev);
            }
            i = i + 1;
        }
        proof {
            lemma_find_key_none(ops, key@);
        }
        let mut j: usize = 0;
        loop
            invariant_except_break
                0 <= j <= self.params@.len(),
                forall|k: int| 0 <= k < j ==> lex_le(fold_seq((#[trigger] ops[k]).0), fold_seq(key@)),
            invariant
                self@ == old(self)@,
                ops == old(self)@.params,
                old(self).wf(),
                key.wf(),
                value.wf(),
                self.params@.len() == ops.len(),
            ensures
                0 <= j <= ops.len(),
                forall|k: int| 0 <= k < j ==> lex_le(fold_seq((#[trigger] ops[k]).0), fold_seq(key@)),
                j < ops.len() ==> !lex_le(fold_seq(ops[j as int].0), fold_seq(key@)),
            decreases self.params@.len() - j,
        {
            if j >= self.params.len() {
                break;
            }
            let le = fold_le(self.params[j].0.as_str(), key.as_str());
            if !le {
                break;
            }
            j = j + 1;
        }
        proof {
            lemma_insert_pair_at(ops, (key@, value@), j as int);
            lemma_insert_at_sorted(ops, (key@, value@), j as int);
        }
        let ghost before = self.params@;
        let ghost pk = key@;
        let ghost pv = value@;
        self.params.insert(j, (key, value));
        proof {
            before.insert_ensures(j as int, (key, value));
            crate::model::lemma_pairs_view_index(before);
            crate::model::lemma_pairs_view_index(self.params@);
            let tgt = ops.subrange(0, j as int) + seq![(pk, pv)] + ops.subrange(
                j as int,
                ops.len() as int,
            );
            assert forall|k: int| 0 <= k < self.params@.len() implies pairs_view(self.params@)[k]
                == #[trigger] tgt[k] by {
                if k < j {
                    assert(self.params@[k] == before[k]);
                    assert(tgt[k] == ops[k]);
                } else if k == j {
                    assert(self.params@[k] == (key, value));
                } else {
                    assert(self.params@[k] == before[k - 1]);
                    assert(tgt[k] == ops[k - 1]);
                }
            }
            assert(pairs_view(self.params@) =~= tgt);
        }
        None
    }

    /// Removes the first parameter whose key matches `key`
    /// case-insensitively and returns its value; absent keys change nothing.
    pub fn remove_param(&mut self, key: &Name) -> (r: Option<String>)
        requires
            old(self).wf(),
        ensures
            final(self).wf(),
            final(self)@.ty == old(self)@.ty,
            final(self)@.subty == old(self)@.subty,
            final(self)@.suffix == old(self)@.suffix,
            match find_key(old(self)@.params, key@) {
                Some(i) => r matches Some(prev) && prev@ == old(self)@.params[i].1 && final(self)@.params == old(self)@.params.remove(i),
                None => r is None && final(self)@ == old(self)@,
            },
    {
        let ghost ops = self@.params;
        let mut i: usize = 0;
        while i < self.params.len()
            invariant
                0 <= i <= self.params@.len(),
                self@ == old(self)@,
                ops == old(self)@.params,
                old(self).wf(),
                forall|j: int| 0 <= j < i ==> fold_seq((#[trigger] ops[j]).0) != fold_seq(key@),
            decreases self.params@.len() - i,
        {
            let found = fold_eq(self.params[i].0.as_str(), key.as_str());
            if found {
                proof {
                    lemma_find_key_is(ops, key@, i as int);
                }
                let ghost before = self.params@;
                let old_pair = self.params.remove(i);
                proof {
                    ops.remove_ensures(i as int);
                    assert(pairs_view(self.params@) =~= ops.remove(i as int));
                    assert forall|a: int, b: int|
                        0 <= a < b < final(self)@.params.len() implies lex_le(
                        fold_seq((#[trigger] final(self)@.params[a]).0),
                        fold_seq((#[trigger] final(self)@.params[b]).0),
                    ) by {
                        if b < i {
                            assert(final(self)@.params[a] == ops[a]);
                            assert(final(self)@.params[b] == ops[b]);
                        } else if a < i {
                            assert(final(self)@.params[a] == ops[a]);
                            assert(final(self)@.params[b] == ops[b + 1]);
                        } else {
                            assert(final(self)@.params[a] == ops[a + 1]);
                            assert(final(self)@.params[b] == ops[b + 1]);
                        }
                    }
                }
                return Some(old_pair.1.as_str().to_owned());
            }
            i = i + 1;
        }
        proof {
            lemma_find_key_none(ops, key@);
        }
        None
    }

    /// Renders `type/subtype[+suffix][; key=value]*` with original casing,
    /// parameters in sorted order, one space after each `;`.
    pub fn to_string(&self) -> (r: String)
        ensures
            r@ == serialize_model(self@),
    {
        let mut out = String::new();
        out.append(self.ty.as_str());
        push_char(&mut out, '/');
        out.append(self.subty.as_str());
        match &self.suffix {
            Some(x) => {
                push_char(&mut out, '+');
                out.append(x.as_str());
            },
            None => {},
        }
        let ghost head = out@;
        proof {
            assert(serialize_model(self@) =~= head + serialize_params(self@.params));
        }
        let mut i: usize = 0;
        while i < self.params.len()
            invariant
                0 <= i <= self.params@.len(),
                pairs_view(self.params@) == self@.params,
                out@ == head + serialize_params(self@.params.subrange(0, i as int)),
            decreases self.params@.len() - i,
        {
            push_char(&mut out, ';');
            push_char(&mut out, ' ');
            out.append(self.params[i].0.as_str());
            push_char(&mut out, '=');
            out.append(self.params[i].1.as_str());
            i = i + 1;
            proof {
                let pre = self@.params.subrange(0, i - 1 as int);
                let cur = self@.params.subrange(0, i as int);
                let one = seq![self@.params[i - 1 as int]];
                crate::model::lemma_pairs_view_index(self.params@);
                crate::model::lemma_serialize_params_concat(pre, one);
                assert(cur =~= pre + one);
                assert(one.drop_first() =~= Seq::<Pair>::empty());
                assert(serialize_params(Seq::<Pair>::empty()) =~= Seq::<char>::empty());
                assert(serialize_params(one) =~= seq![';', ' '] + self@.params[i - 1 as int].0
                    + seq!['='] + self@.params[i - 1 as int].1);
                assert(out@ =~= head + serialize_params(cur));
            }
        }
        proof {
            assert(self@.params.subrange(0, self@.params.len() as int) =~= self@.params);
        }
        out
    }
}

/// Pointwise case-insensitive comparison of two parameter lists.
pub(crate) fn params_sem_eq(a: &Vec<(Name, Value)>, b: &Vec<(Name, Value)>) -> (r: bool)
    ensures
        r == crate::model::pairs_sem_eq(pairs_view(a@), pairs_view(b@)),
{
    proof {
        crate::model::lemma_pairs_view_index(a@);
        crate::model::lemma_pairs_view_index(b@);
    }
    let ghost va = pairs_view(a@);
    let ghost vb = pairs_view(b@);
    if a.len() != b.len() {
        return false;
    }
    let mut i: usize = 0;
    while i < a.len()
        invariant
            0 <= i <= a@.len(),
            a@.len() == b@.len(),
            va == pairs_view(a@) && vb == pairs_view(b@),
            va.len() == a@.len() && vb.len() == b@.len(),
            forall|k: int|
                0 <= k < a@.len() ==> #[trigger] va[k] == (a@[k].0@, a@[k].1@) && vb[k] == (
                    b@[k].0@,
                    b@[k].1@,
                ),
            forall|k: int|
                0 <= k < i ==> fold_seq((#[trigger] va[k]).0) == fold_seq(vb[k].0) && fold_seq(
                    va[k].1,
                ) == fold_seq(vb[k].1),
        decreases a@.len() - i,
    {
        if !fold_eq(a[i].0.as_str(), b[i].0.as_str()) {
            proof {
                assert(fold_seq(va[i as int].0) != fold_seq(vb[i as int].0));
                assert(!crate::model::pairs_sem_eq(va, vb));
            }
            return false;
        }
        if !fold_eq(a[i].1.as_str(), b[i].1.as_str()) {
            proof {
                assert(fold_seq(va[i as int].1) != fold_seq(vb[i as int].1));
                assert(!crate::model::pairs_sem_eq(va, vb));
            }
            return false;
        }
        i = i + 1;
    }
    true
}

impl PartialEq for MediaType {
    /// Whether both sides denote the same media type, compared
    /// case-insensitively field by field.
    fn eq(&self, other: &MediaType) -> (r: bool) {
        let tys = fold_eq(self.ty.as_str(), other.ty.as_str());
        let subtys = fold_eq(self.subty.as_str(), other.subty.as_str());
        let suffixes = match (&self.suffix, &other.suffix) {
            (Some(x), Some(y)) => fold_eq(x.as_str(), y.as_str()),
            (None, None) => true,
            _ => false,
        };
        let params = params_sem_eq(&self.params, &other.params);
        tys && subtys && suffixes && params
    }
}

impl vstd::std_specs::cmp::PartialEqSpecImpl for MediaType {
    open spec fn obeys_eq_spec() -> bool {
        true
    }

    open spec fn eq_spec(&self, other: &MediaType) -> bool {
        crate::model::sem_eq(self@, other@)
    }
}

/// Pointwise case-insensitive three-way comparison of two parameter lists.
pub(crate) fn params_cmp_exec(a: &Vec<(Name, Value)>, b: &Vec<(Name, Value)>) -> (r:
    core::cmp::Ordering)
    ensures
        r == crate::model::params_cmp(pairs_view(a@), pairs_view(b@)),
{
    proof {
        crate::model::lemma_pairs_view_index(a@);
        crate::model::lemma_pairs_view_index(b@);
    }
    let ghost va = pairs_view(a@);
    let ghost vb = pairs_view(b@);
    proof {
        assert(va.skip(0) =~= va);
        assert(vb.skip(0) =~= vb);
    }
    let mut i: usize = 0;
    loop
        invariant
            0 <= i <= a@.len(),
            i <= b@.len(),
            va == pairs_view(a@) && vb == pairs_view(b@),
            va.len() == a@.len() && vb.len() == b@.len(),
            forall|k: int|
                0 <= k < a@.len() ==> #[trigger] va[k] == (a@[k].0@, a@[k].1@),
            forall|k: int|
                0 <= k < b@.len() ==> #[trigger] vb[k] == (b@[k].0@, b@[k].1@),
            crate::model::params_cmp(va, vb) == crate::model::params_cmp(
                va.skip(i as int),
                vb.skip(i as int),
            ),
        decreases a@.len() - i,
    {
        if i >= a.len() && i >= b.len() {
            assert(va.skip(i as int).len() == 0 && vb.skip(i as int).len() == 0);
            return core::cmp::Ordering::Equal;
        }
        if i >= a.len() {
            assert(va.skip(i as int).len() == 0 && vb.skip(i as int).len() > 0);
            return core::cmp::Ordering::Less;
        }
        if i >= b.len() {
            assert(vb.skip(i as int).len() == 0 && va.skip(i as int).len() > 0);
            return core::cmp::Ordering::Greater;
        }
        proof {
            assert(va.skip(i as int)[0] == va[i as int] && vb.skip(i as int)[0] == vb[i as int]);
        }
        let kc = crate::token::fold_cmp(a[i].0.as_str(), b[i].0.as_str());
        match kc {
            core::cmp::Ordering::Equal => {},
            _ => {
                return kc;
            },
        }
        let vc = crate::token::fold_cmp(a[i].1.as_str(), b[i].1.as_str());
        match vc {
            core::cmp::Ordering::Equal => {},
            _ => {
                return vc;
            },
        }
        proof {
            assert(va.skip(i as int).drop_first() =~= va.skip(i + 1 as int));
            assert(vb.skip(i as int).drop_first() =~= vb.skip(i + 1 as int));
        }
        i = i + 1;
    }
}

impl PartialOrd for MediaType {
    /// Orders by type, subtype, suffix (none first), then parameters, all
    /// case-insensitively.
    fn partial_cmp(&self, other: &MediaType) -> (r: Option<core::cmp::Ordering>) {
        let tc = crate::token::fold_cmp(self.ty.as_str(), other.ty.as_str());
        match tc {
            core::cmp::Ordering::Equal => {},
            _ => {
                return Some(tc);
            },
        }
        let sc = crate::token::fold_cmp(self.subty.as_str(), other.subty.as_str());
        match sc {
            core::cmp::Ordering::Equal => {},
            _ => {
                return Some(sc);
            },
        }
        let xc = match (&self.suffix, &other.suffix) {
            (None, None) => core::cmp::Ordering::Equal,
            (None, Some(_)) => core::cmp::Ordering::Less,
            (Some(_), None) => core::cmp::Ordering::Greater,
            (Some(x), Some(y)) => crate::token::fold_cmp(x.as_str(), y.as_str()),
        };
        match xc {
            core::cmp::Ordering::Equal => {},
            _ => {
                return Some(xc);
            },
        }
        Some(params_cmp_exec(&self.params, &other.params))
    }
}

impl vstd::std_specs::cmp::PartialOrdSpecImpl for MediaType {
    open spec fn obeys_partial_cmp_spec() -> bool {
        true
    }

    open spec fn partial_cmp_spec(&self, other: &MediaType) -> Option<core::cmp::Ordering> {
        Some(crate::model::model_cmp(self@, other@))
    }
}

} // verus!
