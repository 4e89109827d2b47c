//! Which experts an input activates, in terms of the input and the centroids.

use vstd::prelude::*;
use crate::agreement::{law_index_ranks, negates_back};
use crate::exact::{computes_exactly, lemma_add, lemma_div, lemma_mul, lemma_opposite, lemma_swap};
use crate::hnsw::level_of;
use crate::index::{hit_ids, scores, Hit};
use crate::kernel::lemma_plus_zero;
use crate::options::IndexKind;
use crate::router::{law_routed, ranked, routed, RouterConfig};
use crate::scalar::{comparable, dot_spec, Scalar};
use crate::sorting::lemma_listed;
use crate::sparse::SparseLayer;
use crate::sparse_forward::{chosen, index_answers, Activation};
use crate::transformer::one;

verus! {

/// Every expert is scored by the inner product of the input with its centroid, and none has a
/// higher score than the first.
pub proof fn law_scored_by_inner_product<T: Scalar>(
    sl: SparseLayer<T>,
    kind: IndexKind,
    x: Seq<T>,
    hits: Seq<Hit<T>>,
    e: int,
)
    requires
        index_answers(sl, kind, x, hits),
        comparable(scores(sl.experts@, x)),
        negates_back(scores(sl.experts@, x)),
        0 <= e < sl.experts@.len(),
    ensures
        exists|i: int|
            0 <= i < hits.len() && (#[trigger] hits[i]).expert_id == e && hits[i].score == dot_spec(
                x,
                sl.experts@[e].centroid@,
            ),
        hits.len() == sl.experts@.len(),
        !hits[0].score.below_spec(dot_spec(x, sl.experts@[e].centroid@)),
{
    let s = scores(sl.experts@, x);
    law_index_ranks(sl, kind, x, hits);
    assert(ranked(hits, s));
    lemma_listed(hit_ids(hits), s.len(), e);
    let p = choose|p: int| 0 <= p < s.len() && #[trigger] hit_ids(hits)[p] == e;
    assert(hits[p].expert_id == e && hits[p].score == s[e]);
    if p == 0 {
        s[e].below_irreflexive();
    }
}

/// At a threshold, the activated experts are ones whose inner product with the input reaches the
/// given part of the best one. There are at most as many as asked for; if there are fewer, all
/// that reach it are activated.
pub proof fn law_threshold_activates<T: Scalar>(
    sl: SparseLayer<T>,
    kind: IndexKind,
    x: Seq<T>,
    hits: Seq<Hit<T>>,
    ratio: T,
    max_k: usize,
    best: int,
)
    requires
        index_answers(sl, kind, x, hits),
        comparable(scores(sl.experts@, x)),
        negates_back(scores(sl.experts@, x)),
        0 <= best < sl.experts@.len(),
        hits[0].expert_id == best,
    ensures
        ({
            let act = Activation::Threshold { ratio, max_k };
            let bound = dot_spec(x, sl.experts@[best].centroid@).times_spec(ratio);
            &&& chosen(act, hits).len() <= max_k
            &&& forall|i: int|
                0 <= i < chosen(act, hits).len() ==> (#[trigger] chosen(act, hits)[i]).expert_id
                    < sl.experts@.len() && bound.at_most_spec(
                    dot_spec(x, sl.experts@[chosen(act, hits)[i].expert_id as int].centroid@),
                )
            &&& chosen(act, hits).len() < max_k ==> forall|e: int|
                0 <= e < sl.experts@.len() && bound.at_most_spec(
                    dot_spec(x, (#[trigger] sl.experts@[e]).centroid@),
                ) ==> exists|i: int|
                    0 <= i < chosen(act, hits).len() && (#[trigger] chosen(act, hits)[i]).expert_id
                        == e
        }),
{
    let act = Activation::Threshold { ratio, max_k };
    let cfg = RouterConfig { threshold_ratio: ratio, max_k };
    let s = scores(sl.experts@, x);
    let out = routed(hits, cfg);
    assert(chosen(act, hits) == out);
    law_index_ranks(sl, kind, x, hits);
    assert(hit_ids(hits).len() == s.len());
    law_routed(hits, cfg);
    assert(hits[0].score == s[best]);
    let bound = s[best].times_spec(ratio);
    assert forall|i: int| 0 <= i < out.len() implies (#[trigger] out[i]).expert_id
        < sl.experts@.len() && bound.at_most_spec(
        dot_spec(x, sl.experts@[out[i].expert_id as int].centroid@),
    ) by {
        assert(hits.contains(out[i]));
        let p = choose|p: int| 0 <= p < hits.len() && hits[p] == out[i];
        assert(hit_ids(hits)[p] < s.len());
        assert(hits[p].score == s[hits[p].expert_id as int]);
    }
    if out.len() < max_k {
        assert forall|e: int|
            0 <= e < sl.experts@.len() && bound.at_most_spec(
                dot_spec(x, (#[trigger] sl.experts@[e]).centroid@),
            ) implies exists|i: int| 0 <= i < out.len() && (#[trigger] out[i]).expert_id == e by {
            lemma_listed(hit_ids(hits), s.len(), e);
            let p = choose|p: int| 0 <= p < s.len() && #[trigger] hit_ids(hits)[p] == e;
            assert(hits[p].expert_id == e && hits[p].score == s[e]);
            assert(out.contains(hits[p]));
            let i = choose|i: int| 0 <= i < out.len() && out[i] == hits[p];
            assert(out[i].expert_id == e);
        }
    }
}

/// From layer to layer there are fewer nodes, by the number of neighbours: a random number that
/// is so many times smaller gives the next higher layer.
pub proof fn law_levels_thin_out<T: Scalar>(u: T, m: usize)
    requires
        computes_exactly::<T>(),
        m >= 2,
        ({
            let k = T::spec_count(m);
            let least = one::<T>().over_spec(T::spec_count(100000000));
            &&& least.at_most_spec(u)
            &&& least.at_most_spec(u.over_spec(k))
            &&& u.over_spec(k).ln_spec() == u.ln_spec().minus_spec(k.ln_spec())
            &&& k.ln_spec().times_spec(one::<T>().over_spec(k.ln_spec())) == one::<T>()
        }),
        forall|x: T|
            (#[trigger] x.plus_spec(one())).floored_spec() == if x.floored_spec() < usize::MAX {
                (x.floored_spec() + 1) as usize
            } else {
                usize::MAX
            },
        level_of(u, m as nat) < usize::MAX - 2,
    ensures
        level_of(u.over_spec(T::spec_count(m)), m as nat) == level_of(u, m as nat) + 1,
{
    let zero = T::spec_zero();
    let k = T::spec_count(m);
    let inv = one::<T>().over_spec(k.ln_spec());
    let a = u.ln_spec();
    let b = k.ln_spec();
    let x = a.negated_spec().times_spec(inv);
    // -(a - b) = -a + b.
    let na = zero.minus_spec(a);
    lemma_div(a, a, 0);
    lemma_div(a.minus_spec(b), b, 0);
    lemma_add(a, b, b);
    let nb = zero.minus_spec(b);
    let c = na.plus_spec(b);
    lemma_add(a, nb, c);
    lemma_add(na, b, nb);
    lemma_add(nb, b, na);
    lemma_add(nb, c, zero);
    lemma_opposite(b, nb);
    lemma_opposite(a, na);
    lemma_plus_zero(na);
    assert(nb.plus_spec(c) == na);
    lemma_opposite(a.plus_spec(nb), c);
    assert(a.minus_spec(b).negated_spec() == na.plus_spec(b));
    lemma_swap(na.plus_spec(b), inv);
    lemma_mul(inv, na, b);
    lemma_swap(inv, na);
    lemma_swap(inv, b);
    assert(a.minus_spec(b).negated_spec().times_spec(inv) == x.plus_spec(one()));
}

} // verus!
