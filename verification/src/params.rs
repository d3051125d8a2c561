//! The sorted parameter table.
//!
//! A parsed parameter table is stable-sorted, ascending, by case-insensitively
//! folded key: parameters written in any order denote the same media type,
//! and among parameters with equal folded keys the encounter order is kept.
use vstd::prelude::*;

use crate::grammar::fold_seq;
use crate::grammar::lex_le;
use crate::model::insert_pair;
use crate::model::lemma_insert_pair_at;
use crate::model::lemma_insert_at_sorted;
use crate::model::pairs_of;
use crate::model::params_sorted;
use crate::model::quad_ok;
use crate::model::sort_pairs;
use crate::model::Pair;
use crate::parse::Quad;
use crate::parse::QuadSpec;
use crate::token::copy_range;
use crate::token::fold_le;

verus! {

/// The range table a vector of quads denotes.
pub open spec fn quads_view(qs: Seq<Quad>) -> Seq<QuadSpec> {
    qs.map_values(|q: Quad| q@)
}

/// Whether the key of `a` comes at or before the key of `b`, comparing the
/// folded key characters of both within the one buffer `s`.
fn quad_le(s: &str, a: &Quad, b: &Quad) -> (r: bool)
    requires
        a.ks <= a.ke <= s@.len(),
        b.ks <= b.ke <= s@.len(),
    ensures
        r == lex_le(fold_seq(s@.subrange(a@.ks, a@.ke)), fold_seq(s@.subrange(b@.ks, b@.ke))),
{
    let ka = copy_range(s, a.ks, a.ke);
    let kb = copy_range(s, b.ks, b.ke);
    fold_le(ka.as_str(), kb.as_str())
}

/// Stable insertion sort of a parameter table by folded key.
pub(crate) fn sort_quads(s: &str, quads: &Vec<Quad>, Ghost(n): Ghost<int>) -> (r: Vec<Quad>)
    requires
        forall|i: int| 0 <= i < quads@.len() ==> quad_ok(s@, (#[trigger] quads@[i])@, n),
    ensures
        r@.len() == quads@.len(),
        forall|i: int| 0 <= i < r@.len() ==> quad_ok(s@, (#[trigger] r@[i])@, n),
        pairs_of(s@, quads_view(r@)) == sort_pairs(pairs_of(s@, quads_view(quads@))),
        params_sorted(pairs_of(s@, quads_view(r@))),
    decreases quads@.len(),
{
    let mut out: Vec<Quad> = Vec::new();
    let mut i: usize = 0;
    proof {
        assert(pairs_of(s@, quads_view(out@)) =~= sort_pairs(
            pairs_of(s@, quads_view(quads@.subrange(0, 0))),
        )) by {
            assert(quads@.subrange(0, 0) =~= Seq::<Quad>::empty());
            assert(quads_view(quads@.subrange(0, 0)) =~= Seq::<QuadSpec>::empty());
            assert(pairs_of(s@, quads_view(quads@.subrange(0, 0))) =~= Seq::<Pair>::empty());
            assert(quads_view(out@) =~= Seq::<QuadSpec>::empty());
            assert(pairs_of(s@, quads_view(out@)) =~= Seq::<Pair>::empty());
        }
    }
    while i < quads.len()
        invariant
            0 <= i <= quads@.len(),
            out@.len() == i,
            forall|k: int| 0 <= k < quads@.len() ==> quad_ok(s@, (#[trigger] quads@[k])@, n),
            forall|k: int| 0 <= k < out@.len() ==> quad_ok(s@, (#[trigger] out@[k])@, n),
            pairs_of(s@, quads_view(out@)) == sort_pairs(
                pairs_of(s@, quads_view(quads@.subrange(0, i as int))),
            ),
            params_sorted(pairs_of(s@, quads_view(out@))),
        decreases quads@.len() - i,
    {
        let q = quads[i];
        let ghost ops = pairs_of(s@, quads_view(out@));
        let ghost pq: Pair = (s@.subrange(q@.ks, q@.ke), s@.subrange(q@.vs, q@.ve));
        let mut j: usize = 0;
        loop
            invariant_except_break
                0 <= j <= out@.len(),
                forall|k: int|
                    0 <= k < j ==> lex_le(fold_seq((#[trigger] ops[k]).0), fold_seq(pq.0)),
            invariant
                out@.len() == i <= quads@.len(),
                ops == pairs_of(s@, quads_view(out@)),
                pq == (s@.subrange(q@.ks, q@.ke), s@.subrange(q@.vs, q@.ve)),
                q == quads@[i as int],
                quad_ok(s@, q@, n),
                forall|k: int| 0 <= k < out@.len() ==> quad_ok(s@, (#[trigger] out@[k])@, n),
            ensures
                0 <= j <= out@.len(),
                forall|k: int|
                    0 <= k < j ==> lex_le(fold_seq((#[trigger] ops[k]).0), fold_seq(pq.0)),
                j < out@.len() ==> !lex_le(fold_seq(ops[j as int].0), fold_seq(pq.0)),
            decreases out@.len() - j,
        {
            if j >= out.len() {
                break;
            }
            let keep_going = quad_le(s, &out[j], &q);
            proof {
                assert(ops[j as int] == (
                    s@.subrange(out@[j as int]@.ks, out@[j as int]@.ke),
                    s@.subrange(out@[j as int]@.vs, out@[j as int]@.ve),
                ));
            }
            if !keep_going {
                break;
            }
            j = j + 1;
        }
        proof {
            lemma_insert_pair_at(ops, pq, j as int);
            lemma_insert_at_sorted(ops, pq, j as int);
        }
        out.insert(j, q);
        i = i + 1;
        proof {
            let ghost prev = quads@.subrange(0, i - 1 as int);
            let ghost cur = quads@.subrange(0, i as int);
            assert(cur.drop_last() =~= prev);
            assert(cur.last() == quads@[i - 1 as int]);
            let nps = pairs_of(s@, quads_view(cur));
            assert(nps.drop_last() =~= pairs_of(s@, quads_view(prev)));
            assert(nps.last() == pq);
            assert(sort_pairs(nps) == insert_pair(sort_pairs(nps.drop_last()), nps.last()));
            assert(pairs_of(s@, quads_view(out@)) =~= ops.subrange(0, j as int) + seq![pq]
                + ops.subrange(j as int, ops.len() as int)) by {
                assert forall|k: int| 0 <= k < out@.len() implies #[trigger] pairs_of(
                    s@,
                    quads_view(out@),
                )[k] == (ops.subrange(0, j as int) + seq![pq] + ops.subrange(
                    j as int,
                    ops.len() as int,
                ))[k] by {
                    if k < j {
                    } else if k == j {
                    } else {
                    }
                }
            }
        }
    }
    proof {
        assert(quads@.subrange(0, quads@.len() as int) =~= quads@);
    }
    out
}

} // verus!
