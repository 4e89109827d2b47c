//! The choice of kernels and of the index changes how the products of a transmuted model are
//! evaluated, not what comes out.
//!
//! With every expert activated this always holds of the index. With a threshold it holds where
//! no equal scores lie across the cut. Of the kernels it holds where sums are exact.

use vstd::prelude::*;
use crate::autograd::mean_loss;
use crate::compare::{is_comparison, is_composite_comparison, CompareReport, CompositeReport};
use crate::hnsw::{best_of_all, dists, indexes_layer, scores_of, HnswIndex};
use crate::index::{hit_ids, scores, Hit, MipsQuery};
use crate::kernel::{adds_exactly, KernelKind};
use crate::model_transmuter::same_matrix;
use crate::options::{IndexKind, SparseOptions};
use crate::order::{finite, keeps_order, lemma_minus, lemma_over, naught};
use crate::ppl::{
    dense_losses, is_sparse_ppl, ppl_of, sparse_logits, sparse_loss, sparse_losses, Forward,
};
use crate::rng::counting;
use crate::router::{
    cut_settled, expert_set, is_best, law_routed_settled, ranked, routed, RouterConfig,
};
use crate::scalar::{comparable, Scalar};
use crate::sorting::{item_before, lists_range};
use crate::sparse::{SparseLayer, TransmutedModel};
use crate::sparse_forward::{
    attention_outputs, block_outputs, block_runs, chosen, index_answers, is_store,
    law_index_lists_all, layer_runs, lemma_any_ready, lemma_chosen_among, lemma_hits_in_layer,
    memory_outputs, model_runs, retrieval_run, retrieval_step_at, row_computed, rows_computed,
    sparse_run, sparse_step_at, Activation,
};
use crate::sparse_linear::{
    law_activation_order_irrelevant, law_kernels_agree, layer_ready, rows_owned, sparse_output,
};
use crate::tensor::Matrix;
use crate::tokenizer::corpus_tokens;
use crate::toy_lm::{
    after_attention, after_feed_forward, after_retrieval, attended, embedded, hidden,
    hidden_hopfield, hopfield_logits_spec, logits_spec, retrieved, retrieved_rows, slot_scores,
    ToyLm,
};
use crate::trainer::window;
use crate::transformer::{added_rows, applied, applied_rows, gelu_rows, norm_rows};
use crate::transmuter::row_listed;

verus! {

/// Whether changing the sign of each number twice gives it back. Floats are like that.
pub open spec fn negates_back<T: Scalar>(s: Seq<T>) -> bool {
    forall|i: int|
        0 <= i < s.len() ==> (#[trigger] s[i]).negated_spec().negated_spec() == s[i]
}

/// Whether it is settled which experts of a layer an input activates: always, where all are;
/// with a threshold, where the scores can be compared and no equal ones lie across the cut.
pub open spec fn settled<T: Scalar>(sl: SparseLayer<T>, act: Activation<T>, x: Seq<T>) -> bool {
    act matches Activation::Threshold { ratio, max_k } ==> {
        let s = scores(sl.experts@, x);
        comparable(s) && negates_back(s) && cut_settled(s, ratio, max_k as nat)
    }
}

/// An index of either kind ranks the experts of a layer by their scores.
pub proof fn law_index_ranks<T: Scalar>(
    sl: SparseLayer<T>,
    kind: IndexKind,
    x: Seq<T>,
    hits: Seq<Hit<T>>,
)
    requires
        index_answers(sl, kind, x, hits),
        comparable(scores(sl.experts@, x)),
        negates_back(scores(sl.experts@, x)),
    ensures
        ranked(hits, scores(sl.experts@, x)),
{
    let s = scores(sl.experts@, x);
    law_index_lists_all(sl, kind, x, hits);
    match kind {
        IndexKind::Brute => {
            assert forall|i: int, j: int| 0 <= i < j < hits.len() implies !(
            #[trigger] hits[i]).score.below_spec((#[trigger] hits[j]).score) by {
                let a = hit_ids(hits)[i] as int;
                let b = hit_ids(hits)[j] as int;
                assert(item_before(s, a, b, true));
                assert(hits[i].score == s[a] && hits[j].score == s[b]);
                if s[a].below_spec(s[b]) && s[b].below_spec(s[a]) {
                    s[a].below_transitive(s[b], s[a]);
                    s[a].below_irreflexive();
                }
            }
        },
        IndexKind::Hnsw => {
            let idx = choose|idx: HnswIndex<T>|
                #[trigger] indexes_layer(idx, sl.experts@) && MipsQuery::answered_by(&idx, x, hits)
                    && best_of_all(
                    hits,
                    scores_of(dists(x, idx.centroids@)),
                    sl.experts@.len(),
                );
            assert(scores_of(dists(x, idx.centroids@)) =~= s) by {
                assert forall|i: int| 0 <= i < s.len() implies scores_of(
                    dists(x, idx.centroids@),
                )[i] == s[i] by {
                    assert(idx.centroids@[i]@ == sl.experts@[i].centroid@);
                }
            }
        },
    }
}

/// Whichever indexes answer, the same experts are activated, if it is settled which.
pub proof fn law_same_experts_chosen<T: Scalar>(
    sl: SparseLayer<T>,
    act: Activation<T>,
    x: Seq<T>,
    k1: IndexKind,
    k2: IndexKind,
    h1: Seq<Hit<T>>,
    h2: Seq<Hit<T>>,
)
    requires
        settled(sl, act, x),
        index_answers(sl, k1, x, h1),
        index_answers(sl, k2, x, h2),
    ensures
        hit_ids(chosen(act, h1)).no_duplicates(),
        hit_ids(chosen(act, h2)).no_duplicates(),
        expert_set(chosen(act, h1)) == expert_set(chosen(act, h2)),
{
    let n = sl.experts@.len();
    law_index_lists_all(sl, k1, x, h1);
    law_index_lists_all(sl, k2, x, h2);
    match act {
        Activation::All => {
            lemma_all_in_set(h1, n);
            lemma_all_in_set(h2, n);
            assert(expert_set(h1) =~= expert_set(h2));
        },
        Activation::Threshold { ratio, max_k } => {
            let s = scores(sl.experts@, x);
            let cfg = RouterConfig { threshold_ratio: ratio, max_k };
            law_index_ranks(sl, k1, x, h1);
            law_index_ranks(sl, k2, x, h2);
            if n > 0 {
                lemma_first_is_best(h1, s);
                let best = h1[0].expert_id as int;
                law_routed_settled(h1, s, cfg, best);
                law_routed_settled(h2, s, cfg, best);
            } else {
                assert(hit_ids(h1).len() == 0 && hit_ids(h2).len() == 0);
                assert(routed(h1, cfg) =~= routed(h2, cfg));
            }
        },
    }
}

proof fn lemma_all_in_set<T>(hits: Seq<Hit<T>>, n: nat)
    requires
        lists_range(hit_ids(hits), 0, n as int),
    ensures
        forall|v: int| #[trigger] expert_set(hits).contains(v) <==> 0 <= v < n,
{
    assert forall|v: int| #[trigger] expert_set(hits).contains(v) <==> 0 <= v < n by {
        if expert_set(hits).contains(v) {
            let i = choose|i: int| 0 <= i < hits.len() && (#[trigger] hits[i]).expert_id == v;
            assert(hit_ids(hits)[i] < n);
        }
        if 0 <= v < n {
            crate::sorting::lemma_listed(hit_ids(hits), n, v);
            let i = choose|i: int| 0 <= i < n && #[trigger] hit_ids(hits)[i] == v;
            assert(hits[i].expert_id == v);
        }
    }
}

proof fn lemma_first_is_best<T: Scalar>(hits: Seq<Hit<T>>, s: Seq<T>)
    requires
        ranked(hits, s),
        s.len() > 0,
    ensures
        is_best(s, hits[0].expert_id as int),
{
    let first = hits[0].expert_id as int;
    assert(hit_ids(hits)[0] < s.len());
    assert forall|j: int| 0 <= j < s.len() implies !s[first].below_spec(#[trigger] s[j]) by {
        crate::sorting::lemma_listed(hit_ids(hits), s.len(), j);
        let p = choose|p: int| 0 <= p < s.len() && #[trigger] hit_ids(hits)[p] == j;
        assert(hits[p].expert_id == j);
        assert(hits[p].score == s[j]);
        assert(hits[0].score == s[first]);
        if p == 0 {
            s[first].below_irreflexive();
        }
    }
}

/// Whether two choices of kernels give the same sums: they are the same choice, or sums are
/// exact.
pub open spec fn kernels_match<T: Scalar>(a: KernelKind, b: KernelKind) -> bool {
    a == b || adds_exactly::<T>()
}

/// The output of a layer for an input does not depend on the options.
pub proof fn law_row_options_irrelevant<T: Scalar>(
    sl: SparseLayer<T>,
    act: Activation<T>,
    o1: SparseOptions,
    o2: SparseOptions,
    x: Seq<T>,
    y1: Seq<T>,
    y2: Seq<T>,
)
    requires
        rows_owned(sl),
        layer_ready(sl, sl.in_dim as nat, counting(sl.experts@.len())),
        settled(sl, act, x),
        kernels_match::<T>(o1.kernel, o2.kernel),
        row_computed(sl, act, o1, x, y1),
        row_computed(sl, act, o2, x, y2),
    ensures
        y1 == y2,
{
    let h1 = choose|hits: Seq<Hit<T>>|
        #[trigger] index_answers(sl, o1.index, x, hits) && y1 == sparse_output(
            sl,
            x,
            hit_ids(chosen(act, hits)),
            o1.kernel,
        );
    let h2 = choose|hits: Seq<Hit<T>>|
        #[trigger] index_answers(sl, o2.index, x, hits) && y2 == sparse_output(
            sl,
            x,
            hit_ids(chosen(act, hits)),
            o2.kernel,
        );
    law_same_experts_chosen(sl, act, x, o1.index, o2.index, h1, h2);
    let c1 = chosen(act, h1);
    let c2 = chosen(act, h2);
    let a = hit_ids(c1);
    let b = hit_ids(c2);
    lemma_chosen_ready(sl, act, o1.index, x, h1);
    lemma_chosen_ready(sl, act, o2.index, x, h2);
    assert forall|e: usize| #[trigger] a.contains(e) <==> b.contains(e) by {
        lemma_set_is_list(c1, e);
        lemma_set_is_list(c2, e);
    }
    law_activation_order_irrelevant(sl, x, a, b, o1.kernel);
    if o1.kernel != o2.kernel {
        law_kernels_agree(sl, x, b, o1.kernel);
        law_kernels_agree(sl, x, b, o2.kernel);
    }
}

proof fn lemma_set_is_list<T>(hits: Seq<Hit<T>>, e: usize)
    ensures
        hit_ids(hits).contains(e) <==> expert_set(hits).contains(e as int),
{
    if hit_ids(hits).contains(e) {
        let i = choose|i: int| 0 <= i < hit_ids(hits).len() && hit_ids(hits)[i] == e;
        assert(hits[i].expert_id == e);
    }
    if expert_set(hits).contains(e as int) {
        let i = choose|i: int| 0 <= i < hits.len() && (#[trigger] hits[i]).expert_id == e as int;
        assert(hit_ids(hits)[i] == e);
    }
}

proof fn lemma_chosen_ready<T: Scalar>(
    sl: SparseLayer<T>,
    act: Activation<T>,
    kind: IndexKind,
    x: Seq<T>,
    hits: Seq<Hit<T>>,
)
    requires
        layer_ready(sl, sl.in_dim as nat, counting(sl.experts@.len())),
        index_answers(sl, kind, x, hits),
    ensures
        layer_ready(sl, sl.in_dim as nat, hit_ids(chosen(act, hits))),
{
    let ids = hit_ids(chosen(act, hits));
    lemma_hits_in_layer(sl, kind, x, hits);
    lemma_chosen_among(act, hits);
    assert(sl.experts.len() == sl.experts@.len());
    assert forall|i: int| 0 <= i < ids.len() implies (#[trigger] ids[i]) < sl.experts@.len() by {
        let c = chosen(act, hits)[i];
        assert(hits.contains(c));
        let j = choose|j: int| 0 <= j < hits.len() && hits[j] == c;
        assert(hits[j].expert_id < sl.experts@.len());
    }
    lemma_any_ready(sl, ids);
}

/// Whether it is settled for each input which experts it activates.
pub open spec fn rows_settled<T: Scalar>(
    sl: SparseLayer<T>,
    act: Activation<T>,
    xs: Seq<Seq<T>>,
) -> bool {
    forall|t: int| 0 <= t < xs.len() ==> settled(sl, act, #[trigger] xs[t])
}

proof fn lemma_rows_agree<T: Scalar>(
    sl: SparseLayer<T>,
    act: Activation<T>,
    o1: SparseOptions,
    o2: SparseOptions,
    kind: IndexKind,
    xs: Seq<Seq<T>>,
    y1: Seq<Seq<T>>,
    y2: Seq<Seq<T>>,
)
    requires
        rows_owned(sl),
        layer_runs(sl, kind),
        rows_settled(sl, act, xs),
        kernels_match::<T>(o1.kernel, o2.kernel),
        rows_computed(sl, act, o1, xs, y1),
        rows_computed(sl, act, o2, xs, y2),
    ensures
        y1 == y2,
{
    reveal(rows_computed);
    reveal(layer_runs);
    assert forall|t: int| 0 <= t < xs.len() implies y1[t] == y2[t] by {
        assert(settled(sl, act, xs[t]));
        assert(row_computed(sl, act, o1, xs[t], y1[t]));
        assert(row_computed(sl, act, o2, xs[t], y2[t]));
        law_row_options_irrelevant(sl, act, o1, o2, xs[t], y1[t], y2[t]);
    }
    assert(y1 =~= y2);
}

/// Whether in every layer of a model each row belongs to the core or to one expert.
pub open spec fn model_owned<T>(tm: TransmutedModel<T>) -> bool {
    forall|l: int, m: int|
        0 <= l < tm.layers@.len() && 0 <= m < 4 ==> rows_owned(#[trigger] tm.layers@[l][m])
}

/// Whether it is settled which experts are activated in the attention part of layer `l`, when
/// `x` is the hidden state in front of it.
pub open spec fn attention_settled<T: Scalar>(
    tm: TransmutedModel<T>,
    act: Activation<T>,
    l: int,
    x: Seq<Seq<T>>,
    qkv: Seq<Seq<T>>,
) -> bool {
    &&& rows_settled(tm.layers@[l][0], act, norm_rows(x, tm.ln1_gain@[l]@))
    &&& rows_settled(
        tm.layers@[l][1],
        act,
        attended(qkv, tm.config.dim as int, tm.config.num_heads as int),
    )
}

/// Whether it is settled which experts are activated all through a forward pass.
pub open spec fn run_settled<T: Scalar>(
    tm: TransmutedModel<T>,
    act: Activation<T>,
    opts: SparseOptions,
    states: Seq<Seq<Seq<T>>>,
) -> bool {
    forall|l: int, qkv: Seq<Seq<T>>, proj: Seq<Seq<T>>, up: Seq<Seq<T>>, down: Seq<Seq<T>>|
        0 <= l < tm.config.num_layers && #[trigger] block_outputs(
            tm,
            act,
            opts,
            l,
            states[l],
            qkv,
            proj,
            up,
            down,
        ) ==> {
            &&& attention_settled(tm, act, l, states[l], qkv)
            &&& rows_settled(
                tm.layers@[l][2],
                act,
                norm_rows(added_rows(states[l], proj), tm.ln2_gain@[l]@),
            )
            &&& rows_settled(tm.layers@[l][3], act, gelu_rows(up))
        }
}

/// Where every expert is activated, that is settled all through a forward pass.
pub proof fn law_all_is_settled<T: Scalar>(
    tm: TransmutedModel<T>,
    opts: SparseOptions,
    states: Seq<Seq<Seq<T>>>,
)
    ensures
        run_settled(tm, Activation::All, opts, states),
        retrieval_settled(tm, Activation::All, opts, states),
{
}

proof fn lemma_states_agree<T: Scalar>(
    tm: TransmutedModel<T>,
    act: Activation<T>,
    o1: SparseOptions,
    o2: SparseOptions,
    tokens: Seq<u32>,
    s1: Seq<Seq<Seq<T>>>,
    s2: Seq<Seq<Seq<T>>>,
    l: int,
)
    requires
        model_runs(tm, o1.index),
        model_owned(tm),
        kernels_match::<T>(o1.kernel, o2.kernel),
        sparse_run(tm, act, o1, tokens, s1),
        sparse_run(tm, act, o2, tokens, s2),
        run_settled(tm, act, o1, s1),
        0 <= l <= tm.config.num_layers,
    ensures
        s1[l] == s2[l],
    decreases l,
{
    if l > 0 {
        let k = l - 1;
        lemma_states_agree(tm, act, o1, o2, tokens, s1, s2, k);
        let x = s1[k];
        let block = tm.layers@[k];
        assert(sparse_step_at(tm, act, o1, k, s1));
        assert(sparse_step_at(tm, act, o2, k, s2));
        let (q1, p1, u1, d1) = choose|
            qkv: Seq<Seq<T>>,
            proj: Seq<Seq<T>>,
            up: Seq<Seq<T>>,
            down: Seq<Seq<T>>,
        | #[trigger]
            block_outputs(tm, act, o1, k, s1[k], qkv, proj, up, down) && s1[k + 1] == added_rows(
                added_rows(s1[k], proj),
                down,
            );
        let (q2, p2, u2, d2) = choose|
            qkv: Seq<Seq<T>>,
            proj: Seq<Seq<T>>,
            up: Seq<Seq<T>>,
            down: Seq<Seq<T>>,
        | #[trigger]
            block_outputs(tm, act, o2, k, s2[k], qkv, proj, up, down) && s2[k + 1] == added_rows(
                added_rows(s2[k], proj),
                down,
            );
        assert(block_runs(block, tm.config.dim as int, tm.config.ff_dim as int, o1.index));
        lemma_attention_agrees(tm, act, o1, o2, k, x, q1, p1, q2, p2);
        assert(rows_owned(tm.layers@[k][2]));
        assert(rows_owned(tm.layers@[k][3]));
        lemma_rows_agree(
            block[2],
            act,
            o1,
            o2,
            o1.index,
            norm_rows(added_rows(x, p1), tm.ln2_gain@[k]@),
            u1,
            u2,
        );
        lemma_rows_agree(block[3], act, o1, o2, o1.index, gelu_rows(u1), d1, d2);
    }
}

proof fn lemma_attention_agrees<T: Scalar>(
    tm: TransmutedModel<T>,
    act: Activation<T>,
    o1: SparseOptions,
    o2: SparseOptions,
    l: int,
    x: Seq<Seq<T>>,
    q1: Seq<Seq<T>>,
    p1: Seq<Seq<T>>,
    q2: Seq<Seq<T>>,
    p2: Seq<Seq<T>>,
)
    requires
        model_runs(tm, o1.index),
        model_owned(tm),
        kernels_match::<T>(o1.kernel, o2.kernel),
        0 <= l < tm.config.num_layers,
        attention_outputs(tm, act, o1, l, x, q1, p1),
        attention_outputs(tm, act, o2, l, x, q2, p2),
        attention_settled(tm, act, l, x, q1),
    ensures
        q1 == q2,
        p1 == p2,
{
    let block = tm.layers@[l];
    assert(block_runs(block, tm.config.dim as int, tm.config.ff_dim as int, o1.index));
    assert(rows_owned(tm.layers@[l][0]));
    assert(rows_owned(tm.layers@[l][1]));
    lemma_rows_agree(
        block[0],
        act,
        o1,
        o2,
        o1.index,
        norm_rows(x, tm.ln1_gain@[l]@),
        q1,
        q2,
    );
    lemma_rows_agree(
        block[1],
        act,
        o1,
        o2,
        o1.index,
        attended(q1, tm.config.dim as int, tm.config.num_heads as int),
        p1,
        p2,
    );
}

/// The scores that a transmuted model gives do not depend on the options.
pub proof fn law_forward_options_irrelevant<T: Scalar>(
    tm: TransmutedModel<T>,
    act: Activation<T>,
    o1: SparseOptions,
    o2: SparseOptions,
    tokens: Seq<u32>,
    s1: Seq<Seq<Seq<T>>>,
    s2: Seq<Seq<Seq<T>>>,
)
    requires
        model_runs(tm, o1.index),
        model_owned(tm),
        kernels_match::<T>(o1.kernel, o2.kernel),
        sparse_run(tm, act, o1, tokens, s1),
        sparse_run(tm, act, o2, tokens, s2),
        run_settled(tm, act, o1, s1),
    ensures
        s1 == s2,
        applied_rows(tm.token_embed, norm_rows(s1.last(), tm.ln_f_gain@)) == applied_rows(
            tm.token_embed,
            norm_rows(s2.last(), tm.ln_f_gain@),
        ),
{
    assert forall|l: int| 0 <= l < s1.len() implies s1[l] == s2[l] by {
        lemma_states_agree(tm, act, o1, o2, tokens, s1, s2, l);
    }
    assert(s1 =~= s2);
}

/// Whether it is settled which experts are activated all through a forward pass with
/// retrieval.
pub open spec fn retrieval_settled<T: Scalar>(
    tm: TransmutedModel<T>,
    act: Activation<T>,
    opts: SparseOptions,
    states: Seq<Seq<Seq<T>>>,
) -> bool {
    forall|l: int, qkv: Seq<Seq<T>>, proj: Seq<Seq<T>>|
        0 <= l < tm.config.num_layers && #[trigger] attention_outputs(
            tm,
            act,
            opts,
            l,
            states[l],
            qkv,
            proj,
        ) ==> attention_settled(tm, act, l, states[l], qkv)
}

/// A layer has only one matrix of weights.
proof fn lemma_store_rows<T: Scalar>(sl: SparseLayer<T>, a: Matrix<T>, b: Matrix<T>, q: int)
    requires
        is_store(a, sl),
        is_store(b, sl),
        0 <= q < sl.out_dim <= u32::MAX,
    ensures
        a.rows == b.rows,
        a.row_seq(q) == b.row_seq(q),
{
    reveal(is_store);
    if sl.core_row_ids@.contains(q as u32) {
        let i = choose|i: int| 0 <= i < sl.core_row_ids@.len() && sl.core_row_ids@[i] == q as u32;
        assert(a.row_seq(sl.core_row_ids@[i] as int) == sl.dense_core.row_seq(i));
    } else if row_listed(sl.experts@, q) {
        let (k, j) = choose|k: int, j: int|
            0 <= k < sl.experts@.len() && 0 <= j < sl.experts@[k].row_ids@.len()
                && #[trigger] sl.experts@[k].row_ids@[j] == q;
        assert(a.row_seq(sl.experts@[k].row_ids@[j] as int) == b.row_seq(
            sl.experts@[k].row_ids@[j] as int,
        ));
    } else {
        assert(a.row_seq(q) == b.row_seq(q));
    }
}

proof fn lemma_same_retrieval<T: Scalar>(
    up: SparseLayer<T>,
    down: SparseLayer<T>,
    k1: Matrix<T>,
    v1: Matrix<T>,
    k2: Matrix<T>,
    v2: Matrix<T>,
    rows: Seq<Seq<T>>,
    beta: T,
)
    requires
        is_store(k1, up),
        is_store(k2, up),
        is_store(v1, down),
        is_store(v2, down),
        up.out_dim <= u32::MAX,
        down.out_dim <= u32::MAX,
    ensures
        retrieved_rows(k1, v1, rows, beta) == retrieved_rows(k2, v2, rows, beta),
{
    assert(k1.rows == up.out_dim && k2.rows == up.out_dim && v1.rows == down.out_dim && v2.rows
        == down.out_dim) by {
        reveal(is_store);
    }
    assert forall|t: int| 0 <= t < rows.len() implies retrieved_rows(k1, v1, rows, beta)[t]
        == retrieved_rows(k2, v2, rows, beta)[t] by {
        let r = rows[t];
        assert(slot_scores(k1, r, beta) =~= slot_scores(k2, r, beta)) by {
            assert forall|i: int| 0 <= i < k1.rows implies k1.row_seq(i) == k2.row_seq(i) by {
                lemma_store_rows(up, k1, k2, i);
            }
        }
        assert forall|j: int| 0 <= j < v1.rows implies v1.row_seq(j) == v2.row_seq(j) by {
            lemma_store_rows(down, v1, v2, j);
        }
        assert(retrieved(k1, v1, r, beta) =~= retrieved(k2, v2, r, beta));
    }
    assert(retrieved_rows(k1, v1, rows, beta) =~= retrieved_rows(k2, v2, rows, beta));
}

proof fn lemma_retrieval_states_agree<T: Scalar>(
    tm: TransmutedModel<T>,
    act: Activation<T>,
    o1: SparseOptions,
    o2: SparseOptions,
    beta: T,
    tokens: Seq<u32>,
    s1: Seq<Seq<Seq<T>>>,
    s2: Seq<Seq<Seq<T>>>,
    l: int,
)
    requires
        model_runs(tm, o1.index),
        model_owned(tm),
        memories_numbered(tm),
        kernels_match::<T>(o1.kernel, o2.kernel),
        retrieval_run(tm, act, o1, beta, tokens, s1),
        retrieval_run(tm, act, o2, beta, tokens, s2),
        retrieval_settled(tm, act, o1, s1),
        0 <= l <= tm.config.num_layers,
    ensures
        s1[l] == s2[l],
    decreases l,
{
    if l > 0 {
        let k = l - 1;
        lemma_retrieval_states_agree(tm, act, o1, o2, beta, tokens, s1, s2, k);
        let x = s1[k];
        let block = tm.layers@[k];
        assert(retrieval_step_at(tm, act, o1, beta, k, s1));
        assert(retrieval_step_at(tm, act, o2, beta, k, s2));
        let gain = tm.ln2_gain@[k]@;
        let (q1, p1, k1, v1) = choose|
            qkv: Seq<Seq<T>>,
            proj: Seq<Seq<T>>,
            keys: Matrix<T>,
            values: Matrix<T>,
        | #[trigger]
            memory_outputs(tm, act, o1, k, s1[k], qkv, proj, keys, values) && s1[k + 1]
                == added_rows(
                added_rows(s1[k], proj),
                retrieved_rows(keys, values, norm_rows(added_rows(s1[k], proj), gain), beta),
            );
        let (q2, p2, k2, v2) = choose|
            qkv: Seq<Seq<T>>,
            proj: Seq<Seq<T>>,
            keys: Matrix<T>,
            values: Matrix<T>,
        | #[trigger]
            memory_outputs(tm, act, o2, k, s2[k], qkv, proj, keys, values) && s2[k + 1]
                == added_rows(
                added_rows(s2[k], proj),
                retrieved_rows(keys, values, norm_rows(added_rows(s2[k], proj), gain), beta),
            );
        assert(attention_outputs(tm, act, o1, k, s1[k], q1, p1));
        lemma_attention_agrees(tm, act, o1, o2, k, x, q1, p1, q2, p2);
        assert(tm.layers@[k][2].out_dim <= u32::MAX);
        lemma_same_retrieval(
            block[2],
            block[3],
            k1,
            v1,
            k2,
            v2,
            norm_rows(added_rows(x, p1), gain),
            beta,
        );
    }
}

/// Whether the rows of the feed-forward blocks can be numbered.
pub open spec fn memories_numbered<T>(tm: TransmutedModel<T>) -> bool {
    forall|l: int|
        0 <= l < tm.layers@.len() ==> (#[trigger] tm.layers@[l])[2].out_dim <= u32::MAX
            && tm.layers@[l][3].out_dim <= u32::MAX
}

/// The scores that a transmuted model gives with retrieval do not depend on the options.
pub proof fn law_retrieval_options_irrelevant<T: Scalar>(
    tm: TransmutedModel<T>,
    act: Activation<T>,
    o1: SparseOptions,
    o2: SparseOptions,
    beta: T,
    tokens: Seq<u32>,
    s1: Seq<Seq<Seq<T>>>,
    s2: Seq<Seq<Seq<T>>>,
)
    requires
        model_runs(tm, o1.index),
        model_owned(tm),
        memories_numbered(tm),
        kernels_match::<T>(o1.kernel, o2.kernel),
        retrieval_run(tm, act, o1, beta, tokens, s1),
        retrieval_run(tm, act, o2, beta, tokens, s2),
        retrieval_settled(tm, act, o1, s1),
    ensures
        s1 == s2,
        applied_rows(tm.token_embed, norm_rows(s1.last(), tm.ln_f_gain@)) == applied_rows(
            tm.token_embed,
            norm_rows(s2.last(), tm.ln_f_gain@),
        ),
{
    assert forall|l: int| 0 <= l < s1.len() implies s1[l] == s2[l] by {
        lemma_retrieval_states_agree(tm, act, o1, o2, beta, tokens, s1, s2, l);
    }
    assert(s1 =~= s2);
}

/// Whether it is settled which experts are activated all through the forward passes over the
/// windows of a list of tokens.
pub open spec fn windows_settled<T: Scalar>(
    tm: TransmutedModel<T>,
    fwd: Forward<T>,
    act: Activation<T>,
    opts: SparseOptions,
    ids: Seq<u32>,
    seq: int,
) -> bool {
    match fwd {
        Forward::Gelu => forall|s: int, states: Seq<Seq<Seq<T>>>| #[trigger]
            sparse_run(tm, act, opts, window(ids, s, seq), states) ==> run_settled(
                tm,
                act,
                opts,
                states,
            ),
        Forward::Hopfield(beta) => forall|s: int, states: Seq<Seq<Seq<T>>>| #[trigger]
            retrieval_run(tm, act, opts, beta, window(ids, s, seq), states) ==> retrieval_settled(
                tm,
                act,
                opts,
                states,
            ),
    }
}

/// Where every expert is activated, that is settled in every window.
pub proof fn law_all_windows_settled<T: Scalar>(
    tm: TransmutedModel<T>,
    fwd: Forward<T>,
    opts: SparseOptions,
    ids: Seq<u32>,
    seq: int,
)
    ensures
        windows_settled(tm, fwd, Activation::All, opts, ids, seq),
{
}

proof fn lemma_logits_agree<T: Scalar>(
    tm: TransmutedModel<T>,
    fwd: Forward<T>,
    act: Activation<T>,
    o1: SparseOptions,
    o2: SparseOptions,
    ids: Seq<u32>,
    seq: int,
    s: int,
    r1: Seq<Seq<T>>,
    r2: Seq<Seq<T>>,
)
    requires
        model_runs(tm, o1.index),
        model_owned(tm),
        fwd is Hopfield ==> memories_numbered(tm),
        kernels_match::<T>(o1.kernel, o2.kernel),
        windows_settled(tm, fwd, act, o1, ids, seq),
        sparse_logits(tm, fwd, act, o1, window(ids, s, seq), r1),
        sparse_logits(tm, fwd, act, o2, window(ids, s, seq), r2),
    ensures
        r1 == r2,
{
    let tokens = window(ids, s, seq);
    match fwd {
        Forward::Gelu => {
            let s1 = choose|states: Seq<Seq<Seq<T>>>|
                sparse_run(tm, act, o1, tokens, states) && r1 == #[trigger] applied_rows(
                    tm.token_embed,
                    norm_rows(states.last(), tm.ln_f_gain@),
                );
            let s2 = choose|states: Seq<Seq<Seq<T>>>|
                sparse_run(tm, act, o2, tokens, states) && r2 == #[trigger] applied_rows(
                    tm.token_embed,
                    norm_rows(states.last(), tm.ln_f_gain@),
                );
            assert(sparse_run(tm, act, o1, window(ids, s, seq), s1));
            law_forward_options_irrelevant(tm, act, o1, o2, tokens, s1, s2);
        },
        Forward::Hopfield(beta) => {
            let s1 = choose|states: Seq<Seq<Seq<T>>>|
                retrieval_run(tm, act, o1, beta, tokens, states) && r1 == #[trigger] applied_rows(
                    tm.token_embed,
                    norm_rows(states.last(), tm.ln_f_gain@),
                );
            let s2 = choose|states: Seq<Seq<Seq<T>>>|
                retrieval_run(tm, act, o2, beta, tokens, states) && r2 == #[trigger] applied_rows(
                    tm.token_embed,
                    norm_rows(states.last(), tm.ln_f_gain@),
                );
            assert(retrieval_run(tm, act, o1, beta, window(ids, s, seq), s1));
            law_retrieval_options_irrelevant(tm, act, o1, o2, beta, tokens, s1, s2);
        },
    }
}

/// The perplexity of a transmuted model does not depend on the options.
pub proof fn law_ppl_options_irrelevant<T: Scalar>(
    tm: TransmutedModel<T>,
    fwd: Forward<T>,
    act: Activation<T>,
    o1: SparseOptions,
    o2: SparseOptions,
    ids: Seq<u32>,
    seq: int,
    p1: T,
    p2: T,
)
    requires
        model_runs(tm, o1.index),
        model_owned(tm),
        fwd is Hopfield ==> memories_numbered(tm),
        kernels_match::<T>(o1.kernel, o2.kernel),
        windows_settled(tm, fwd, act, o1, ids, seq),
        is_sparse_ppl(tm, fwd, act, o1, ids, seq, p1),
        is_sparse_ppl(tm, fwd, act, o2, ids, seq, p2),
    ensures
        p1 == p2,
{
    let l1 = choose|losses: Seq<T>| #[trigger]
        sparse_losses(tm, fwd, act, o1, ids, seq, losses) && p1 == ppl_of(losses);
    let l2 = choose|losses: Seq<T>| #[trigger]
        sparse_losses(tm, fwd, act, o2, ids, seq, losses) && p2 == ppl_of(losses);
    assert forall|s: int| 0 <= s < l1.len() implies l1[s] == l2[s] by {
        assert(sparse_loss(tm, fwd, act, o1, ids, seq, s, l1[s]));
        assert(sparse_loss(tm, fwd, act, o2, ids, seq, s, l2[s]));
        let r1 = choose|rows: Seq<Seq<T>>| #[trigger]
            sparse_logits(tm, fwd, act, o1, window(ids, s, seq), rows) && l1[s] == mean_loss(
                rows,
                window(ids, s + 1, seq),
            );
        let r2 = choose|rows: Seq<Seq<T>>| #[trigger]
            sparse_logits(tm, fwd, act, o2, window(ids, s, seq), rows) && l2[s] == mean_loss(
                rows,
                window(ids, s + 1, seq),
            );
        lemma_logits_agree(tm, fwd, act, o1, o2, ids, seq, s, r1, r2);
    }
    assert(l1 =~= l2);
}

/// Whether a sparse layer stands for a matrix: whichever experts an input of its width
/// activates, its output is that of the matrix.
pub open spec fn stands_for<T: Scalar>(
    sl: SparseLayer<T>,
    act: Activation<T>,
    opts: SparseOptions,
    w: Matrix<T>,
) -> bool {
    forall|x: Seq<T>, y: Seq<T>| #[trigger]
        row_computed(sl, act, opts, x, y) ==> y == applied(w, x)
}

/// Whether a transmuted model has the sizes, the embedding and the gains of a dense one, and
/// its layers stand for the matrices of the dense one.
pub open spec fn model_stands_for<T: Scalar>(
    tm: TransmutedModel<T>,
    act: Activation<T>,
    opts: SparseOptions,
    lm: ToyLm<T>,
) -> bool {
    &&& tm.config.num_layers == lm.config.num_layers
    &&& tm.config.dim == lm.config.dim
    &&& tm.config.num_heads == lm.config.num_heads
    &&& same_matrix(tm.token_embed, lm.weights.token_embed)
    &&& tm.ln_f_gain@ == lm.weights.ln_f_gain@
    &&& forall|l: int|
        0 <= l < lm.config.num_layers ==> {
            &&& tm.ln1_gain@[l]@ == lm.weights.ln1_gain@[l]@
            &&& tm.ln2_gain@[l]@ == lm.weights.ln2_gain@[l]@
            &&& stands_for((#[trigger] tm.layers@[l])[0], act, opts, lm.weights.qkv@[l])
            &&& stands_for(tm.layers@[l][1], act, opts, lm.weights.attn_out@[l])
            &&& stands_for(tm.layers@[l][2], act, opts, lm.weights.ff_up@[l])
            &&& stands_for(tm.layers@[l][3], act, opts, lm.weights.ff_down@[l])
        }
}

proof fn lemma_rows_stand<T: Scalar>(
    sl: SparseLayer<T>,
    act: Activation<T>,
    opts: SparseOptions,
    w: Matrix<T>,
    xs: Seq<Seq<T>>,
    ys: Seq<Seq<T>>,
)
    requires
        stands_for(sl, act, opts, w),
        rows_computed(sl, act, opts, xs, ys),
    ensures
        ys == applied_rows(w, xs),
{
    reveal(rows_computed);
    assert forall|t: int| 0 <= t < xs.len() implies ys[t] == applied_rows(w, xs)[t] by {
        assert(row_computed(sl, act, opts, xs[t], ys[t]));
    }
    assert(ys =~= applied_rows(w, xs));
}

proof fn lemma_same_head<T: Scalar>(a: Matrix<T>, b: Matrix<T>, rows: Seq<Seq<T>>)
    requires
        same_matrix(a, b),
    ensures
        applied_rows(a, rows) == applied_rows(b, rows),
{
    assert forall|t: int| 0 <= t < rows.len() implies applied_rows(a, rows)[t] == applied_rows(
        b,
        rows,
    )[t] by {
        assert(applied(a, rows[t]) =~= applied(b, rows[t]));
    }
    assert(applied_rows(a, rows) =~= applied_rows(b, rows));
}

proof fn lemma_same_start<T: Scalar>(a: Matrix<T>, b: Matrix<T>, tokens: Seq<u32>)
    requires
        same_matrix(a, b),
    ensures
        embedded(a, tokens) == embedded(b, tokens),
{
    assert(embedded(a, tokens) =~= embedded(b, tokens));
}

proof fn lemma_attention_stands<T: Scalar>(
    tm: TransmutedModel<T>,
    act: Activation<T>,
    opts: SparseOptions,
    lm: ToyLm<T>,
    l: int,
    x: Seq<Seq<T>>,
    qkv: Seq<Seq<T>>,
    proj: Seq<Seq<T>>,
)
    requires
        model_stands_for(tm, act, opts, lm),
        0 <= l < lm.config.num_layers,
        attention_outputs(tm, act, opts, l, x, qkv, proj),
    ensures
        added_rows(x, proj) == after_attention(lm.weights, lm.config, l, x),
{
    let block = tm.layers@[l];
    assert(stands_for(tm.layers@[l][0], act, opts, lm.weights.qkv@[l]));
    let h = norm_rows(x, tm.ln1_gain@[l]@);
    lemma_rows_stand(block[0], act, opts, lm.weights.qkv@[l], h, qkv);
    let at = attended(qkv, tm.config.dim as int, tm.config.num_heads as int);
    lemma_rows_stand(block[1], act, opts, lm.weights.attn_out@[l], at, proj);
}

proof fn lemma_states_stand<T: Scalar>(
    tm: TransmutedModel<T>,
    act: Activation<T>,
    opts: SparseOptions,
    lm: ToyLm<T>,
    tokens: Seq<u32>,
    states: Seq<Seq<Seq<T>>>,
    l: int,
)
    requires
        model_stands_for(tm, act, opts, lm),
        sparse_run(tm, act, opts, tokens, states),
        0 <= l <= lm.config.num_layers,
    ensures
        states[l] == hidden(lm.weights, lm.config, tokens, l as nat),
    decreases l,
{
    if l == 0 {
        lemma_same_start(tm.token_embed, lm.weights.token_embed, tokens);
    } else {
        let k = l - 1;
        lemma_states_stand(tm, act, opts, lm, tokens, states, k);
        let x = states[k];
        let block = tm.layers@[k];
        assert(sparse_step_at(tm, act, opts, k, states));
        let (qkv, proj, up, down) = choose|
            qkv: Seq<Seq<T>>,
            proj: Seq<Seq<T>>,
            up: Seq<Seq<T>>,
            down: Seq<Seq<T>>,
        | #[trigger]
            block_outputs(tm, act, opts, k, states[k], qkv, proj, up, down) && states[k + 1]
                == added_rows(added_rows(states[k], proj), down);
        lemma_attention_stands(tm, act, opts, lm, k, x, qkv, proj);
        assert(stands_for(tm.layers@[k][0], act, opts, lm.weights.qkv@[k]));
        let x1 = added_rows(x, proj);
        let h = norm_rows(x1, tm.ln2_gain@[k]@);
        lemma_rows_stand(block[2], act, opts, lm.weights.ff_up@[k], h, up);
        lemma_rows_stand(block[3], act, opts, lm.weights.ff_down@[k], gelu_rows(up), down);
        assert(states[l] == after_feed_forward(lm.weights, k, x1));
    }
}

/// A transmuted model whose layers stand for the matrices of a dense model computes what the
/// dense model computes: the same hidden state behind every layer, and the same scores.
pub proof fn law_stand_in_forward<T: Scalar>(
    tm: TransmutedModel<T>,
    act: Activation<T>,
    opts: SparseOptions,
    lm: ToyLm<T>,
    tokens: Seq<u32>,
    states: Seq<Seq<Seq<T>>>,
)
    requires
        model_stands_for(tm, act, opts, lm),
        sparse_run(tm, act, opts, tokens, states),
    ensures
        forall|l: int|
            0 <= l <= lm.config.num_layers ==> #[trigger] states[l] == hidden(
                lm.weights,
                lm.config,
                tokens,
                l as nat,
            ),
        applied_rows(tm.token_embed, norm_rows(states.last(), tm.ln_f_gain@)) == logits_spec(
            lm,
            tokens,
        ),
{
    assert forall|l: int| 0 <= l <= lm.config.num_layers implies #[trigger] states[l] == hidden(
        lm.weights,
        lm.config,
        tokens,
        l as nat,
    ) by {
        lemma_states_stand(tm, act, opts, lm, tokens, states, l);
    }
    assert(states.last() == states[lm.config.num_layers as int]);
    lemma_same_head(
        tm.token_embed,
        lm.weights.token_embed,
        norm_rows(states.last(), tm.ln_f_gain@),
    );
}

/// Whether the feed-forward blocks of a transmuted model store the matrices of a dense one.
pub open spec fn stores_memories<T: Scalar>(tm: TransmutedModel<T>, lm: ToyLm<T>) -> bool {
    forall|l: int|
        0 <= l < lm.config.num_layers ==> is_store(
            lm.weights.ff_up@[l],
            (#[trigger] tm.layers@[l])[2],
        ) && is_store(lm.weights.ff_down@[l], tm.layers@[l][3])
}

proof fn lemma_retrieval_states_stand<T: Scalar>(
    tm: TransmutedModel<T>,
    act: Activation<T>,
    opts: SparseOptions,
    lm: ToyLm<T>,
    beta: T,
    tokens: Seq<u32>,
    states: Seq<Seq<Seq<T>>>,
    l: int,
)
    requires
        model_stands_for(tm, act, opts, lm),
        stores_memories(tm, lm),
        tm.layers@.len() == tm.config.num_layers,
        memories_numbered(tm),
        retrieval_run(tm, act, opts, beta, tokens, states),
        0 <= l <= lm.config.num_layers,
    ensures
        states[l] == hidden_hopfield(lm.weights, lm.config, tokens, beta, l as nat),
    decreases l,
{
    if l == 0 {
        lemma_same_start(tm.token_embed, lm.weights.token_embed, tokens);
    } else {
        let k = l - 1;
        lemma_retrieval_states_stand(tm, act, opts, lm, beta, tokens, states, k);
        let x = states[k];
        let block = tm.layers@[k];
        assert(retrieval_step_at(tm, act, opts, beta, k, states));
        let gain = tm.ln2_gain@[k]@;
        let (qkv, proj, keys, values) = choose|
            qkv: Seq<Seq<T>>,
            proj: Seq<Seq<T>>,
            keys: Matrix<T>,
            values: Matrix<T>,
        | #[trigger]
            memory_outputs(tm, act, opts, k, states[k], qkv, proj, keys, values) && states[k + 1]
                == added_rows(
                added_rows(states[k], proj),
                retrieved_rows(keys, values, norm_rows(added_rows(states[k], proj), gain), beta),
            );
        lemma_attention_stands(tm, act, opts, lm, k, x, qkv, proj);
        assert(stands_for(tm.layers@[k][0], act, opts, lm.weights.qkv@[k]));
        assert(tm.layers@[k][2].out_dim <= u32::MAX);
        lemma_same_retrieval(
            block[2],
            block[3],
            keys,
            values,
            lm.weights.ff_up@[k],
            lm.weights.ff_down@[k],
            norm_rows(added_rows(x, proj), gain),
            beta,
        );
        assert(states[l] == after_retrieval(lm.weights, k, added_rows(x, proj), beta));
    }
}

/// A transmuted model whose layers stand for the matrices of a dense model, and whose
/// feed-forward blocks store them, retrieves what the dense model retrieves.
pub proof fn law_stand_in_retrieval<T: Scalar>(
    tm: TransmutedModel<T>,
    act: Activation<T>,
    opts: SparseOptions,
    lm: ToyLm<T>,
    beta: T,
    tokens: Seq<u32>,
    states: Seq<Seq<Seq<T>>>,
)
    requires
        model_stands_for(tm, act, opts, lm),
        stores_memories(tm, lm),
        tm.layers@.len() == tm.config.num_layers,
        memories_numbered(tm),
        retrieval_run(tm, act, opts, beta, tokens, states),
    ensures
        forall|l: int|
            0 <= l <= lm.config.num_layers ==> #[trigger] states[l] == hidden_hopfield(
                lm.weights,
                lm.config,
                tokens,
                beta,
                l as nat,
            ),
        applied_rows(tm.token_embed, norm_rows(states.last(), tm.ln_f_gain@))
            == hopfield_logits_spec(lm, tokens, beta),
{
    assert forall|l: int| 0 <= l <= lm.config.num_layers implies #[trigger] states[l]
        == hidden_hopfield(lm.weights, lm.config, tokens, beta, l as nat) by {
        lemma_retrieval_states_stand(tm, act, opts, lm, beta, tokens, states, l);
    }
    assert(states.last() == states[lm.config.num_layers as int]);
    lemma_same_head(
        tm.token_embed,
        lm.weights.token_embed,
        norm_rows(states.last(), tm.ln_f_gain@),
    );
}

/// A transmuted model whose layers stand for the matrices of a dense model has the perplexity
/// of the dense model.
pub proof fn law_stand_in_perplexity<T: Scalar>(
    tm: TransmutedModel<T>,
    act: Activation<T>,
    opts: SparseOptions,
    lm: ToyLm<T>,
    ids: Seq<u32>,
    seq: int,
    ppl: T,
)
    requires
        model_stands_for(tm, act, opts, lm),
        is_sparse_ppl(tm, Forward::Gelu, act, opts, ids, seq, ppl),
    ensures
        ppl == ppl_of(dense_losses(lm, Forward::Gelu, ids, seq)),
{
    let fwd = Forward::Gelu;
    let want = dense_losses(lm, fwd, ids, seq);
    let losses = choose|losses: Seq<T>| #[trigger]
        sparse_losses(tm, fwd, act, opts, ids, seq, losses) && ppl == ppl_of(losses);
    assert forall|s: int| 0 <= s < losses.len() implies losses[s] == want[s] by {
        assert(sparse_loss(tm, fwd, act, opts, ids, seq, s, losses[s]));
        let tokens = window(ids, s, seq);
        let rows = choose|rows: Seq<Seq<T>>| #[trigger]
            sparse_logits(tm, fwd, act, opts, window(ids, s, seq), rows) && losses[s] == mean_loss(
                rows,
                window(ids, s + 1, seq),
            );
        let states = choose|states: Seq<Seq<Seq<T>>>|
            sparse_run(tm, act, opts, tokens, states) && rows == #[trigger] applied_rows(
                tm.token_embed,
                norm_rows(states.last(), tm.ln_f_gain@),
            );
        law_stand_in_forward(tm, act, opts, lm, tokens, states);
    }
    assert(losses =~= want);
}

/// A transmuted model whose layers stand for the matrices of a dense model is reported with the
/// dense model's perplexity, and with no degradation.
pub proof fn law_stand_in_report<T: Scalar>(
    r: CompareReport<T>,
    lm: ToyLm<T>,
    tm: TransmutedModel<T>,
    corpus: Seq<u8>,
    seq: int,
    act: Activation<T>,
    opts: SparseOptions,
)
    requires
        keeps_order::<T>(),
        model_stands_for(tm, act, opts, lm),
        is_comparison(r, lm, tm, corpus, seq, act, opts),
        finite(ppl_of(dense_losses(lm, Forward::Gelu, corpus_tokens(corpus), seq))),
        T::spec_zero().below_spec(
            ppl_of(dense_losses(lm, Forward::Gelu, corpus_tokens(corpus), seq)),
        ),
    ensures
        r.ppl_dense == ppl_of(dense_losses(lm, Forward::Gelu, corpus_tokens(corpus), seq)),
        r.ppl_sparse == r.ppl_dense,
        naught(r.rel_degradation),
{
    law_stand_in_perplexity(tm, act, opts, lm, corpus_tokens(corpus), seq, r.ppl_sparse);
    let zero = T::spec_zero();
    let none = r.ppl_dense.minus_spec(r.ppl_dense);
    lemma_minus(r.ppl_dense, r.ppl_dense, r.ppl_dense);
    lemma_over(none, none, r.ppl_dense);
}

/// A transmuted model whose layers stand for the matrices of a dense model, and whose
/// feed-forward blocks store them, has the perplexity of the dense model with retrieval too.
pub proof fn law_stand_in_retrieval_perplexity<T: Scalar>(
    tm: TransmutedModel<T>,
    act: Activation<T>,
    opts: SparseOptions,
    lm: ToyLm<T>,
    beta: T,
    ids: Seq<u32>,
    seq: int,
    ppl: T,
)
    requires
        model_stands_for(tm, act, opts, lm),
        stores_memories(tm, lm),
        tm.layers@.len() == tm.config.num_layers,
        memories_numbered(tm),
        is_sparse_ppl(tm, Forward::Hopfield(beta), act, opts, ids, seq, ppl),
    ensures
        ppl == ppl_of(dense_losses(lm, Forward::Hopfield(beta), ids, seq)),
{
    let fwd = Forward::Hopfield(beta);
    let want = dense_losses(lm, fwd, ids, seq);
    let losses = choose|losses: Seq<T>| #[trigger]
        sparse_losses(tm, fwd, act, opts, ids, seq, losses) && ppl == ppl_of(losses);
    assert forall|s: int| 0 <= s < losses.len() implies losses[s] == want[s] by {
        assert(sparse_loss(tm, fwd, act, opts, ids, seq, s, losses[s]));
        let tokens = window(ids, s, seq);
        let rows = choose|rows: Seq<Seq<T>>| #[trigger]
            sparse_logits(tm, fwd, act, opts, window(ids, s, seq), rows) && losses[s] == mean_loss(
                rows,
                window(ids, s + 1, seq),
            );
        let states = choose|states: Seq<Seq<Seq<T>>>|
            retrieval_run(tm, act, opts, beta, tokens, states) && rows == #[trigger] applied_rows(
                tm.token_embed,
                norm_rows(states.last(), tm.ln_f_gain@),
            );
        law_stand_in_retrieval(tm, act, opts, lm, beta, tokens, states);
    }
    assert(losses =~= want);
}

/// In a composite report a transmuted model whose layers stand for the matrices of a dense model,
/// and whose feed-forward blocks store them, has the dense model's perplexities under both rules.
pub proof fn law_stand_in_composite_report<T: Scalar>(
    r: CompositeReport<T>,
    lm: ToyLm<T>,
    tm: TransmutedModel<T>,
    corpus: Seq<u8>,
    seq: int,
    beta: T,
    act: Activation<T>,
    opts: SparseOptions,
)
    requires
        model_stands_for(tm, act, opts, lm),
        stores_memories(tm, lm),
        tm.layers@.len() == tm.config.num_layers,
        memories_numbered(tm),
        is_composite_comparison(r, lm, tm, corpus, seq, beta, act, opts),
    ensures
        r.sparse_gelu == r.dense_gelu,
        r.sparse_hopfield == r.dense_hopfield,
        r.dense_gelu == ppl_of(dense_losses(lm, Forward::Gelu, corpus_tokens(corpus), seq)),
{
    let ids = corpus_tokens(corpus);
    law_stand_in_perplexity(tm, act, opts, lm, ids, seq, r.sparse_gelu);
    law_stand_in_retrieval_perplexity(tm, act, opts, lm, beta, ids, seq, r.sparse_hopfield);
}

} // verus!
