//! The owned, immutable media type.
//!
//! A `MediaTypeBuf` holds one owned string — cut down to its significant
//! length — and the byte-range table produced by parsing it; every accessor
//! slices that buffer, no accessor mutates anything.
use vstd::prelude::*;

use crate::grammar::find_from;
use crate::grammar::fold_seq;
use crate::grammar::lemma_fold_char_classes;
use crate::grammar::lex_le;
use crate::grammar::valid_token;
use crate::model::canon_model;
use crate::model::lemma_find_key_is;
use crate::model::lemma_find_key_none;
use crate::model::lemma_fold_valid_token;
use crate::model::lemma_model_truncate;
use crate::model::lemma_pairs_of_index;
use crate::model::lemma_pairs_view_index;
use crate::model::lemma_parse_serialize;
use crate::model::lemma_parse_wf;
use crate::model::lemma_sort_pairs_sorted_id;
use crate::model::lookup;
use crate::model::model_of;
use crate::model::model_wf;
use crate::model::pairs_of;
use crate::model::pairs_view;
use crate::model::params_sorted;
use crate::model::parsed_model;
use crate::model::quad_ok;
use crate::model::serialize_model;
use crate::model::serialize_params;
use crate::model::sort_pairs;
use crate::model::splittable;
use crate::model::MtModel;
use crate::model::Pair;
use crate::params::quads_view;
use crate::params::sort_quads;
use crate::parse::find_from_x;
use crate::parse::parse_indices;
use crate::parse::parse_spec;
use crate::parse::Indices;
use crate::parse::ParseError;
use crate::parse::RawParts;
use crate::token::append_folded_range;
use crate::token::append_range;
use crate::token::copy_range;
use crate::token::fold_eq;
use crate::token::push_char;
use crate::token::Name;
use crate::token::Value;

verus! {

/// The prefix of a buffer before its first `;`, or the whole buffer.
pub open spec fn essence_of(s: Seq<char>) -> Seq<char> {
    match find_from(s, 0, ';') {
        Some(p) => s.subrange(0, p),
        None => s,
    }
}

/// An owned, immutable media type: one string buffer and the byte ranges of
/// its parts, the parameter table sorted by case-insensitively folded key.
#[derive(Debug)]
pub struct MediaTypeBuf {
    data: String,
    indices: Indices,
}

impl View for MediaTypeBuf {
    type V = MtModel;

    closed spec fn view(&self) -> MtModel {
        model_of(self.data@, self.indices.raw(self.data@.len() as int))
    }
}

impl MediaTypeBuf {
    /// The owned buffer's characters.
    pub closed spec fn buffer(&self) -> Seq<char> {
        self.data@
    }

    /// The ranges lie ordered inside the buffer, every token is valid, the
    /// parameter table is sorted, and the subtype/suffix division survives
    /// re-serialization.
    #[verifier::type_invariant]
    pub closed spec fn wf(&self) -> bool {
        let n = self.data@.len() as int;
        &&& 0 < self.indices.ty_end as int
        &&& self.indices.ty_end + 1 < self.indices.subty_end as int
        &&& match self.indices.suffix_end {
            Some(e) => self.indices.subty_end + 1 < e as int && e as int <= n,
            None => self.indices.subty_end as int <= n,
        }
        &&& forall|i: int|
            0 <= i < self.indices.params@.len() ==> quad_ok(
                self.data@,
                (#[trigger] self.indices.params@[i])@,
                n,
            )
        &&& model_wf(self@)
        &&& splittable(self@)
    }

    /// Parses a borrowed string into an owned media type, keeping only the
    /// significant prefix of the input.
    pub fn from_str(s: &str) -> (r: Result<MediaTypeBuf, ParseError>)
        ensures
            match r {
                Ok(b) => parse_spec(s@) is Ok && b.wf() && b@ == parsed_model(s@) && splittable(
                    b@,
                ) && b.buffer() == s@.subrange(0, parse_spec(s@)->Ok_0.sig_len),
                Err(e) => parse_spec(s@) == Err::<RawParts, ParseError>(e),
            },
    {
        let (ind, sig) = match parse_indices(s) {
            Ok(x) => x,
            Err(e) => {
                return Err(e);
            },
        };
        proof {
            lemma_parse_wf(s@);
        }
        let ghost raw = parse_spec(s@)->Ok_0;
        proof {
            assert(quads_view(ind.params@) =~= raw.params);
            assert forall|k: int| 0 <= k < ind.params@.len() implies quad_ok(
                s@,
                (#[trigger] ind.params@[k])@,
                raw.sig_len,
            ) by {
                assert((ind.params@[k])@ == raw.params[k]);
            }
        }
        let sorted = sort_quads(s, &ind.params, Ghost(raw.sig_len));
        let data = copy_range(s, 0, sig);
        let indices = Indices {
            ty_end: ind.ty_end,
            subty_end: ind.subty_end,
            suffix_end: ind.suffix_end,
            params: sorted,
        };
        proof {
            let n = raw.sig_len;
            let raw2 = indices.raw(n);
            let bm = model_of(data@, raw2);
            assert(raw2.params =~= quads_view(indices.params@));
            lemma_model_truncate(s@, raw2);
            assert(bm =~= model_of(s@, raw2));
            let m0 = model_of(s@, raw);
            assert(pairs_of(s@, raw2.params) == sort_pairs(pairs_of(s@, raw.params))) by {
                assert(pairs_of(s@, quads_view(sorted@)) == sort_pairs(
                    pairs_of(s@, quads_view(ind.params@)),
                ));
                assert(pairs_of(s@, quads_view(ind.params@)) =~= pairs_of(s@, raw.params));
            }
            assert(bm =~= parsed_model(s@));
            assert forall|i: int|
                0 <= i < bm.params.len() implies valid_token((#[trigger] bm.params[i]).0)
                && valid_token(bm.params[i].1) by {
                lemma_pairs_of_index(s@, quads_view(sorted@));
                let q = quads_view(sorted@)[i];
                assert(quad_ok(s@, q, n));
                assert(bm.params[i] == (s@.subrange(q.ks, q.ke), s@.subrange(q.vs, q.ve)));
            }
            assert(model_wf(bm));
            assert(splittable(bm)) by {
                assert(bm.subty == m0.subty && bm.suffix == m0.suffix);
            }
            assert forall|i: int| 0 <= i < indices.params@.len() implies quad_ok(
                data@,
                (#[trigger] indices.params@[i])@,
                data@.len() as int,
            ) by {
                let q = (indices.params@[i])@;
                assert(quad_ok(s@, q, n));
                assert(data@.subrange(q.ks, q.ke) =~= s@.subrange(q.ks, q.ke));
                assert(data@.subrange(q.vs, q.ve) =~= s@.subrange(q.vs, q.ve));
            }
        }
        let b = MediaTypeBuf { data, indices };
        Ok(b)
    }

    /// Parses an owned string, taking ownership of its text.
    pub fn from_string(s: String) -> (r: Result<MediaTypeBuf, ParseError>)
        ensures
            match r {
                Ok(b) => parse_spec(s@) is Ok && b.wf() && b@ == parsed_model(s@) && splittable(
                    b@,
                ) && b.buffer() == s@.subrange(0, parse_spec(s@)->Ok_0.sig_len),
                Err(e) => parse_spec(s@) == Err::<RawParts, ParseError>(e),
            },
    {
        Self::from_str(s.as_str())
    }

    /// The top-level type, in its original casing.
    pub fn ty(&self) -> (r: String)
        requires
            self.wf(),
        ensures
            r@ == self@.ty,
    {
        copy_range(self.data.as_str(), 0, self.indices.ty_end)
    }

    /// The subtype, in its original casing.
    pub fn subty(&self) -> (r: String)
        requires
            self.wf(),
        ensures
            r@ == self@.subty,
    {
        copy_range(self.data.as_str(), self.indices.ty_end + 1, self.indices.subty_end)
    }

    /// The suffix, in its original casing, if any.
    pub fn suffix(&self) -> (r: Option<String>)
        requires
            self.wf(),
        ensures
            match r {
                Some(x) => self@.suffix == Some(x@),
                None => self@.suffix is None,
            },
    {
        match self.indices.suffix_end {
            Some(e) => Some(copy_range(self.data.as_str(), self.indices.subty_end + 1, e)),
            None => None,
        }
    }

    /// The buffer's prefix before the first `;`: `type/subtype[+suffix]`
    /// with no parameters.
    pub fn essence(&self) -> (r: String)
        ensures
            r@ == essence_of(self.buffer()),
    {
        let s = self.data.as_str();
        match find_from_x(s, 0, ';') {
            Some(p) => copy_range(s, 0, p),
            None => copy_range(s, 0, s.unicode_len()),
        }
    }

    /// The parameters, sorted by case-insensitively folded key.
    pub fn params(&self) -> (r: Vec<(Name, Value)>)
        requires
            self.wf(),
        ensures
            pairs_view(r@) == self@.params,
    {
        let s = self.data.as_str();
        let mut out: Vec<(Name, Value)> = Vec::new();
        proof {
            lemma_pairs_of_index(self.data@, self.indices.raw(self.data@.len() as int).params);
            assert(pairs_view(out@) =~= self@.params.subrange(0, 0));
        }
        let mut i: usize = 0;
        while i < self.indices.params.len()
            invariant
                0 <= i <= self.indices.params@.len(),
                self.wf(),
                s@ == self.data@,
                self@.params.len() == self.indices.params@.len(),
                forall|k: int|
                    0 <= k < self.indices.params@.len() ==> #[trigger] self@.params[k] == (
                        self.data@.subrange(
                            (self.indices.params@[k])@.ks,
                            (self.indices.params@[k])@.ke,
                        ),
                        self.data@.subrange(
                            (self.indices.params@[k])@.vs,
                            (self.indices.params@[k])@.ve,
                        ),
                    ),
                pairs_view(out@) == self@.params.subrange(0, i as int),
            decreases self.indices.params@.len() - i,
        {
            let q = self.indices.params[i];
            let key = Name::from_text(copy_range(s, q.ks, q.ke));
            let value = Value::from_text(copy_range(s, q.vs, q.ve));
            let ghost prev = out@;
            out.push((key, value));
            i = i + 1;
            proof {
                lemma_pairs_view_index(out@);
                lemma_pairs_view_index(prev);
                assert forall|k: int| 0 <= k < i implies pairs_view(out@)[k]
                    == #[trigger] self@.params.subrange(0, i as int)[k] by {
                    if k < i - 1 {
                        assert(out@[k] == prev[k]);
                        assert(pairs_view(prev)[k] == self@.params[k]);
                    } else {
                        assert(out@[k] == (key, value));
                    }
                }
                assert(pairs_view(out@) =~= self@.params.subrange(0, i as int));
            }
        }
        proof {
            assert(self@.params.subrange(0, self@.params.len() as int) =~= self@.params);
        }
        out
    }

    /// The value of the first parameter whose key matches `key`
    /// case-insensitively, in its original casing, if any.
    pub fn get_param(&self, key: &Name) -> (r: Option<String>)
        requires
            self.wf(),
        ensures
            match r {
                Some(v) => lookup(self@.params, key@) == Some(v@),
                None => lookup(self@.params, key@) is None,
            },
    {
        let s = self.data.as_str();
        proof {
            lemma_pairs_of_index(self.data@, self.indices.raw(self.data@.len() as int).params);
        }
        let mut i: usize = 0;
        while i < self.indices.params.len()
            invariant
                0 <= i <= self.indices.params@.len(),
                self.wf(),
                s@ == self.data@,
                self@.params.len() == self.indices.params@.len(),
                forall|k: int|
                    0 <= k < self.indices.params@.len() ==> #[trigger] self@.params[k] == (
                        self.data@.subrange(
                            (self.indices.params@[k])@.ks,
                            (self.indices.params@[k])@.ke,
                        ),
                        self.data@.subrange(
                            (self.indices.params@[k])@.vs,
                            (self.indices.params@[k])@.ve,
                        ),
                    ),
                forall|j: int|
                    0 <= j < i ==> fold_seq((#[trigger] self@.params[j]).0) != fold_seq(key@),
            decreases self.indices.params@.len() - i,
        {
            let q = self.indices.params[i];
            let k = copy_range(s, q.ks, q.ke);
            if fold_eq(k.as_str(), key.as_str()) {
                proof {
                    lemma_find_key_is(self@.params, key@, i as int);
                }
                return Some(copy_range(s, q.vs, q.ve));
            }
            i = i + 1;
        }
        proof {
            lemma_find_key_none(self@.params, key@);
        }
        None
    }

    /// Renders `type/subtype[+suffix][; key=value]*` with original casing,
    /// parameters in sorted order, one space after each `;`.
    pub fn to_string(&self) -> (r: String)
        requires
            self.wf(),
        ensures
            r@ == serialize_model(self@),
    {
        let s = self.data.as_str();
        let mut out = String::new();
        append_range(&mut out, s, 0, self.indices.ty_end);
        push_char(&mut out, '/');
        append_range(&mut out, s, self.indices.ty_end + 1, self.indices.subty_end);
        match self.indices.suffix_end {
            Some(e) => {
                push_char(&mut out, '+');
                append_range(&mut out, s, self.indices.subty_end + 1, e);
            },
            None => {},
        }
        let ghost head = out@;
        proof {
            assert(serialize_model(self@) =~= head + serialize_params(self@.params));
            lemma_pairs_of_index(self.data@, self.indices.raw(self.data@.len() as int).params);
        }
        let mut i: usize = 0;
        while i < self.indices.params.len()
            invariant
                0 <= i <= self.indices.params@.len(),
                self.wf(),
                s@ == self.data@,
                self@.params.len() == self.indices.params@.len(),
                forall|k: int|
                    0 <= k < self.indices.params@.len() ==> #[trigger] self@.params[k] == (
                        self.data@.subrange(
                            (self.indices.params@[k])@.ks,
                            (self.indices.params@[k])@.ke,
                        ),
                        self.data@.subrange(
                            (self.indices.params@[k])@.vs,
                            (self.indices.params@[k])@.ve,
                        ),
                    ),
                out@ == head + serialize_params(self@.params.subrange(0, i as int)),
            decreases self.indices.params@.len() - i,
        {
            let q = self.indices.params[i];
            push_char(&mut out, ';');
            push_char(&mut out, ' ');
            append_range(&mut out, s, q.ks, q.ke);
            push_char(&mut out, '=');
            append_range(&mut out, s, q.vs, q.ve);
            i = i + 1;
            proof {
                let pre = self@.params.subrange(0, i - 1 as int);
                let cur = self@.params.subrange(0, i as int);
                let one = seq![self@.params[i - 1 as int]];
                crate::model::lemma_serialize_params_concat(pre, one);
                assert(cur =~= pre + one);
                assert(one.drop_first() =~= Seq::<Pair>::empty());
                assert(serialize_params(Seq::<Pair>::empty()) =~= Seq::<char>::empty());
                assert(serialize_params(one) =~= seq![';', ' '] + self@.params[i - 1 as int].0
                    + seq!['='] + self@.params[i - 1 as int].1);
                assert(out@ =~= head + serialize_params(cur));
            }
        }
        proof {
            assert(self@.params.subrange(0, self@.params.len() as int) =~= self@.params);
        }
        out
    }

    /// The canonical form: type, subtype, suffix and parameter keys
    /// ASCII-lowercased, parameter values unchanged, one `; ` between
    /// parameters, no trailing separator or whitespace.  The rebuilt string
    /// always re-parses: the central re-parsing theorem rules the failure
    /// out.
    pub fn canonicalize(&self) -> (r: MediaTypeBuf)
        requires
            self.wf(),
        ensures
            r.wf(),
            r@ == canon_model(self@),
            r.buffer() == serialize_model(canon_model(self@)),
    {
        let ghost cm = canon_model(self@);
        let s = self.data.as_str();
        let mut out = String::new();
        append_folded_range(&mut out, s, 0, self.indices.ty_end);
        push_char(&mut out, '/');
        append_folded_range(&mut out, s, self.indices.ty_end + 1, self.indices.subty_end);
        match self.indices.suffix_end {
            Some(e) => {
                push_char(&mut out, '+');
                append_folded_range(&mut out, s, self.indices.subty_end + 1, e);
            },
            None => {},
        }
        let ghost head = out@;
        proof {
            assert(serialize_model(cm) =~= head + serialize_params(cm.params));
            lemma_pairs_of_index(self.data@, self.indices.raw(self.data@.len() as int).params);
        }
        let mut i: usize = 0;
        while i < self.indices.params.len()
            invariant
                0 <= i <= self.indices.params@.len(),
                self.wf(),
                s@ == self.data@,
                cm == canon_model(self@),
                self@.params.len() == self.indices.params@.len(),
                cm.params.len() == self@.params.len(),
                forall|k: int|
                    0 <= k < cm.params.len() ==> #[trigger] cm.params[k] == (
                        fold_seq(self@.params[k].0),
                        self@.params[k].1,
                    ),
                forall|k: int|
                    0 <= k < self.indices.params@.len() ==> #[trigger] self@.params[k] == (
                        self.data@.subrange(
                            (self.indices.params@[k])@.ks,
                            (self.indices.params@[k])@.ke,
                        ),
                        self.data@.subrange(
                            (self.indices.params@[k])@.vs,
                            (self.indices.params@[k])@.ve,
                        ),
                    ),
                out@ == head + serialize_params(cm.params.subrange(0, i as int)),
            decreases self.indices.params@.len() - i,
        {
            let q = self.indices.params[i];
            push_char(&mut out, ';');
            push_char(&mut out, ' ');
            append_folded_range(&mut out, s, q.ks, q.ke);
            push_char(&mut out, '=');
            append_range(&mut out, s, q.vs, q.ve);
            i = i + 1;
            proof {
                let pre = cm.params.subrange(0, i - 1 as int);
                let cur = cm.params.subrange(0, i as int);
                let one = seq![cm.params[i - 1 as int]];
                crate::model::lemma_serialize_params_concat(pre, one);
                assert(cur =~= pre + one);
                assert(one.drop_first() =~= Seq::<Pair>::empty());
                assert(serialize_params(Seq::<Pair>::empty()) =~= Seq::<char>::empty());
                assert(serialize_params(one) =~= seq![';', ' '] + cm.params[i - 1 as int].0
                    + seq!['='] + cm.params[i - 1 as int].1);
                assert(out@ =~= head + serialize_params(cur));
            }
        }
        proof {
            assert(cm.params.subrange(0, cm.params.len() as int) =~= cm.params);
            assert(out@ == serialize_model(cm));
            lemma_fold_valid_token(self@.ty);
            lemma_fold_valid_token(self@.subty);
            match self@.suffix {
                Some(x) => {
                    lemma_fold_valid_token(x);
                },
                None => {},
            }
            assert forall|i2: int|
                0 <= i2 < cm.params.len() implies valid_token((#[trigger] cm.params[i2]).0)
                && valid_token(cm.params[i2].1) by {
                lemma_fold_valid_token(self@.params[i2].0);
            }
            assert(splittable(cm)) by {
                match self@.suffix {
                    Some(x) => {
                        assert(cm.suffix == Some(fold_seq(x)));
                        assert forall|j: int| 0 <= j < fold_seq(x).len() implies fold_seq(x)[j]
                            != '+' by {
                            lemma_fold_char_classes(x[j]);
                        }
                    },
                    None => {
                        assert(cm.suffix is None && cm.subty == fold_seq(self@.subty));
                        assert forall|j: int|
                            0 <= j < fold_seq(self@.subty).len() implies fold_seq(self@.subty)[j]
                            != '+' by {
                            lemma_fold_char_classes(self@.subty[j]);
                        }
                    },
                }
            }
            lemma_parse_serialize(cm);
            assert(params_sorted(cm.params)) by {
                assert forall|a: int, b: int|
                    0 <= a < b < cm.params.len() implies lex_le(
                    fold_seq((#[trigger] cm.params[a]).0),
                    fold_seq((#[trigger] cm.params[b]).0),
                ) by {
                    crate::grammar::lemma_fold_seq_idempotent(self@.params[a].0);
                    crate::grammar::lemma_fold_seq_idempotent(self@.params[b].0);
                    assert(lex_le(fold_seq(self@.params[a].0), fold_seq(self@.params[b].0)));
                }
            }
            lemma_sort_pairs_sorted_id(cm.params);
        }
        match Self::from_str(out.as_str()) {
            Ok(b) => {
                proof {
                    let ser = serialize_model(cm);
                    let raw = parse_spec(ser)->Ok_0;
                    assert(b@ =~= cm) by {
                        assert(model_of(ser, raw) == cm);
                        assert(b@ == parsed_model(ser));
                        assert(sort_pairs(cm.params) == cm.params);
                    }
                    assert(b.buffer() =~= ser);
                }
                b
            },
            Err(_) => {
                proof {
                    assert(false);
                }
                vstd::pervasive::unreached()
            },
        }
    }
}

impl MediaTypeBuf {
    /// The kept buffer, as text.
    pub fn as_str(&self) -> (r: &str)
        ensures
            r@ == self.buffer(),
    {
        self.data.as_str()
    }

    /// Converts a structured media type by serializing and re-parsing it;
    /// the round-trip theorem rules the parse failure out.
    pub fn from_media_type(m: &crate::media_type::MediaType) -> (r: MediaTypeBuf)
        requires
            m.wf(),
            splittable(m@),
        ensures
            r.wf(),
            r@ == m@,
            r.buffer() == serialize_model(m@),
    {
        let s = m.to_string();
        proof {
            crate::laws::lemma_round_trip(m@);
        }
        match Self::from_str(s.as_str()) {
            Ok(b) => {
                proof {
                    lemma_parse_serialize(m@);
                    assert(b.buffer() =~= serialize_model(m@));
                }
                b
            },
            Err(_) => {
                proof {
                    assert(false);
                }
                vstd::pervasive::unreached()
            },
        }
    }
}

impl PartialEq for MediaTypeBuf {
    /// Whether both sides denote the same media type, compared
    /// case-insensitively field by field.
    fn eq(&self, other: &MediaTypeBuf) -> (r: bool) {
        proof {
            use_type_invariant(self);
            use_type_invariant(other);
        }
        let ta = self.ty();
        let tb = other.ty();
        let tys = fold_eq(ta.as_str(), tb.as_str());
        let sa = self.subty();
        let sb = other.subty();
        let subtys = fold_eq(sa.as_str(), sb.as_str());
        let xa = self.suffix();
        let xb = other.suffix();
        let suffixes = match (&xa, &xb) {
            (Some(x), Some(y)) => fold_eq(x.as_str(), y.as_str()),
            (None, None) => true,
            _ => false,
        };
        let pa = self.params();
        let pb = other.params();
        let params = crate::media_type::params_sem_eq(&pa, &pb);
        tys && subtys && suffixes && params
    }
}

impl vstd::std_specs::cmp::PartialEqSpecImpl for MediaTypeBuf {
    open spec fn obeys_eq_spec() -> bool {
        true
    }

    open spec fn eq_spec(&self, other: &MediaTypeBuf) -> bool {
        crate::model::sem_eq(self@, other@)
    }
}

impl PartialOrd for MediaTypeBuf {
    /// Orders by type, subtype, suffix (none first), then parameters, all
    /// case-insensitively.
    fn partial_cmp(&self, other: &MediaTypeBuf) -> (r: Option<core::cmp::Ordering>) {
        proof {
            use_type_invariant(self);
            use_type_invariant(other);
        }
        let ta = self.ty();
        let tb = other.ty();
        let tc = crate::token::fold_cmp(ta.as_str(), tb.as_str());
        match tc {
            core::cmp::Ordering::Equal => {},
            _ => {
                return Some(tc);
            },
        }
        let sa = self.subty();
        let sb = other.subty();
        let sc = crate::token::fold_cmp(sa.as_str(), sb.as_str());
        match sc {
            core::cmp::Ordering::Equal => {},
            _ => {
                return Some(sc);
            },
        }
        let xa = self.suffix();
        let xb = other.suffix();
        let xc = match (&xa, &xb) {
            (None, None) => core::cmp::Ordering::Equal,
            (None, Some(_)) => core::cmp::Ordering::Less,
            (Some(_), None) => core::cmp::Ordering::Greater,
            (Some(x), Some(y)) => crate::token::fold_cmp(x.as_str(), y.as_str()),
        };
        match xc {
            core::cmp::Ordering::Equal => {},
            _ => {
                return Some(xc);
            },
        }
        let pa = self.params();
        let pb = other.params();
        Some(crate::media_type::params_cmp_exec(&pa, &pb))
    }
}

impl vstd::std_specs::cmp::PartialOrdSpecImpl for MediaTypeBuf {
    open spec fn obeys_partial_cmp_spec() -> bool {
        true
    }

    open spec fn partial_cmp_spec(&self, other: &MediaTypeBuf) -> Option<core::cmp::Ordering> {
        Some(crate::model::model_cmp(self@, other@))
    }
}

} // verus!
