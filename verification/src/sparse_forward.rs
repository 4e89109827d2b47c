//! The forward pass over a transmuted model. It is that of the dense model, with each of
//! the four matrices of a layer replaced by a sparse layer.

use vstd::prelude::*;
use crate::hnsw::{
    best_of_all, build_hnsw_for_layer, dists, indexes_layer, law_query_recall, scores_of, HnswIndex,
};
use crate::index::{hit_ids, ranks_all, scores, Hit, MipsIndex, MipsQuery};
use crate::kernel::{ids_within, KernelKind};
use crate::options::{default_options, IndexKind, SparseOptions};
use crate::rng::counting;
use crate::router::{law_routed, route_all, route_by_ratio, routed, RouterConfig};
use crate::scalar::Scalar;
use crate::sorting::{lemma_listed, lists_range};
use crate::sparse::{IDX_ATTN_OUT, IDX_FF_DOWN, IDX_FF_UP, IDX_QKV, SparseLayer, TransmutedModel};
use crate::sparse_linear::{
    expert_ready, law_activation_order_irrelevant, layer_ready, rows_owned,
    sparse_linear_with_kernel, sparse_output,
};
use crate::tensor::{copy_all, row_of, Matrix};
use crate::toy_lm::{
    add_retrieved, attended, embed_tokens, embedded, gains_fit, has_shape, retrieved_rows,
};
use crate::transformer::{
    add_all, added_rows, applied_rows, apply_to_rows, causal_self_attention, gelu_inplace,
    gelu_rows, holds_rows, layernorm, lemma_added_rows, lemma_gelu_rows, lemma_rows_held,
    lemma_rows_read, norm_rows, push_row, row_at, row_parts, rows_of, split_qkv,
};
use crate::transmuter::{
    expert_complete, quantized_row, reconstruct_quantized_rows, row_listed, rows_disjoint,
    write_row,
};

verus! {

/// Which experts are activated.
#[derive(Debug, Clone, Copy)]
pub enum Activation<T> {
    /// All of them.
    All,
    /// Those whose score reaches `ratio` times the best one, up to `max_k`.
    Threshold { ratio: T, max_k: usize },
}

impl<T: Scalar> Default for Activation<T> {
    fn default() -> (r: Self)
        ensures
            r is All,
    {
        Activation::All
    }
}

/// The hits that are activated.
pub open spec fn chosen<T: Scalar>(act: Activation<T>, hits: Seq<Hit<T>>) -> Seq<Hit<T>> {
    match act {
        Activation::All => hits,
        Activation::Threshold { ratio, max_k } => routed(
            hits,
            RouterConfig { threshold_ratio: ratio, max_k },
        ),
    }
}

/// Whether the index of the given kind can answer an input with `hits`.
pub open spec fn index_answers<T: Scalar>(
    sl: SparseLayer<T>,
    kind: IndexKind,
    x: Seq<T>,
    hits: Seq<Hit<T>>,
) -> bool {
    match kind {
        IndexKind::Brute => ranks_all(hits, scores(sl.experts@, x)),
        IndexKind::Hnsw => exists|idx: HnswIndex<T>|
            #[trigger] indexes_layer(idx, sl.experts@) && idx.answered_by(x, hits) && best_of_all(
                hits,
                scores_of(dists(x, idx.centroids@)),
                sl.experts@.len(),
            ),
    }
}

/// Whether `y` is the output of a layer for `x`, with the experts that the index finds
/// and the activation chooses.
pub open spec fn row_computed<T: Scalar>(
    sl: SparseLayer<T>,
    act: Activation<T>,
    opts: SparseOptions,
    x: Seq<T>,
    y: Seq<T>,
) -> bool {
    x.len() == sl.in_dim && exists|hits: Seq<Hit<T>>|
        #[trigger] index_answers(sl, opts.index, x, hits) && y == sparse_output(
            sl,
            x,
            hit_ids(chosen(act, hits)),
            opts.kernel,
        )
}

/// Whether `ys` are the outputs of a layer for `xs`.
#[verifier::opaque]
pub open spec fn rows_computed<T: Scalar>(
    sl: SparseLayer<T>,
    act: Activation<T>,
    opts: SparseOptions,
    xs: Seq<Seq<T>>,
    ys: Seq<Seq<T>>,
) -> bool {
    &&& xs.len() == ys.len()
    &&& forall|t: int|
        0 <= t < xs.len() ==> row_computed(sl, act, opts, #[trigger] xs[t], ys[t])
}

/// Whether a layer can be computed for inputs of its width, whichever experts are
/// activated.
#[verifier::opaque]
pub open spec fn layer_runs<T: Scalar>(sl: SparseLayer<T>, kind: IndexKind) -> bool {
    &&& layer_ready(sl, sl.in_dim as nat, counting(sl.experts@.len()))
    &&& kind is Hnsw ==> sl.experts@.len() <= u32::MAX
}

/// A layer that can be computed with all experts can be computed with any of them.
pub proof fn lemma_any_ready<T: Scalar>(sl: SparseLayer<T>, activated: Seq<usize>)
    requires
        layer_ready(sl, sl.in_dim as nat, counting(sl.experts@.len())),
        sl.experts@.len() <= usize::MAX,
        forall|i: int| 0 <= i < activated.len() ==> (#[trigger] activated[i]) < sl.experts@.len(),
    ensures
        layer_ready(sl, sl.in_dim as nat, activated),
{
    let all = counting(sl.experts@.len());
    assert forall|i: int| 0 <= i < activated.len() implies (#[trigger] activated[i])
        < sl.experts@.len() && expert_ready(
        sl.experts@[activated[i] as int],
        sl.pq_codebook,
        sl.in_dim as nat,
        sl.out_dim as nat,
    ) by {
        assert(activated[i] < sl.experts@.len());
        assert(all[activated[i] as int] == activated[i]);
    }
}

/// What an index answers names experts of the layer.
pub proof fn lemma_hits_in_layer<T: Scalar>(
    sl: SparseLayer<T>,
    kind: IndexKind,
    x: Seq<T>,
    hits: Seq<Hit<T>>,
)
    requires
        index_answers(sl, kind, x, hits),
    ensures
        forall|i: int| 0 <= i < hits.len() ==> (#[trigger] hits[i]).expert_id < sl.experts@.len(),
{
    match kind {
        IndexKind::Brute => {
            assert forall|i: int| 0 <= i < hits.len() implies (#[trigger] hits[i]).expert_id
                < sl.experts@.len() by {
                assert(hit_ids(hits)[i] < sl.experts@.len());
            }
        },
        IndexKind::Hnsw => {
            let idx = choose|idx: HnswIndex<T>|
                #[trigger] indexes_layer(idx, sl.experts@) && idx.answered_by(x, hits)
                    && best_of_all(
                    hits,
                    scores_of(dists(x, idx.centroids@)),
                    sl.experts@.len(),
                );
        },
    }
}

/// The hits that an index answers an input with.
fn find_hits<T: Scalar>(
    sl: &SparseLayer<T>,
    hnsw: &Option<HnswIndex<T>>,
    x: &[T],
    Ghost(kind): Ghost<IndexKind>,
) -> (hits: Vec<Hit<T>>)
    requires
        hnsw is None ==> kind is Brute,
        hnsw matches Some(idx) ==> kind is Hnsw && indexes_layer(*idx, sl.experts@),
    ensures
        index_answers(*sl, kind, x@, hits@),
{
    match hnsw {
        Some(idx) => {
            let hits = MipsQuery::query_all(idx, x);
            proof {
                assert(idx.answered_by(x@, hits@));
                if idx.centroids@.len() > 0 {
                    law_query_recall(*idx, x@, idx.centroids@.len(), hits@);
                }
            }
            hits
        },
        None => {
            let brute = MipsIndex::new(&sl.experts);
            brute.query_all(x)
        },
    }
}

/// The experts of the hits that are activated.
fn choose_experts<T: Scalar>(act: Activation<T>, hits: &Vec<Hit<T>>) -> (r: Vec<usize>)
    ensures
        r@ == hit_ids(chosen(act, hits@)),
{
    let picked = match act {
        Activation::All => route_all(hits),
        Activation::Threshold { ratio, max_k } => route_by_ratio(
            hits,
            &RouterConfig { threshold_ratio: ratio, max_k },
        ),
    };
    let mut ids: Vec<usize> = Vec::with_capacity(picked.len());
    for i in 0..picked.len()
        invariant
            ids@ == hit_ids(picked@).take(i as int),
    {
        ids.push(picked[i].expert_id);
        assert(ids@ =~= hit_ids(picked@).take(i + 1));
    }
    assert(ids@ =~= hit_ids(picked@));
    ids
}

/// The outputs of a layer for each of the `seq` rows of `h`.
fn sparse_linear_seq<T: Scalar>(
    sl: &SparseLayer<T>,
    h: &[T],
    seq: usize,
    act: Activation<T>,
    opts: SparseOptions,
) -> (r: (Vec<T>, Ghost<Seq<Seq<T>>>))
    requires
        layer_runs(*sl, opts.index),
        h@.len() == seq * sl.in_dim,
    ensures
        holds_rows(r.0@, sl.out_dim as nat, r.1@),
        r.1@.len() == seq,
        rows_computed(
            *sl,
            act,
            opts,
            rows_of(h@, seq as nat, sl.in_dim as nat),
            r.1@,
        ),
{
    proof {
        reveal(layer_runs);
        reveal(rows_computed);
    }
    let in_dim: usize = sl.in_dim;
    let out_dim: usize = sl.out_dim;
    let hnsw: Option<HnswIndex<T>> = match opts.index {
        IndexKind::Hnsw => Some(build_hnsw_for_layer(sl)),
        IndexKind::Brute => None,
    };
    let ghost xs = rows_of(h@, seq as nat, in_dim as nat);
    let ghost mut ys: Seq<Seq<T>> = Seq::empty();
    let mut out: Vec<T> = Vec::new();
    assert(0 * out_dim == 0) by (nonlinear_arith);
    for t in 0..seq
        invariant
            layer_runs(*sl, opts.index),
            in_dim == sl.in_dim,
            out_dim == sl.out_dim,
            h@.len() == seq * in_dim,
            xs == rows_of(h@, seq as nat, in_dim as nat),
            hnsw is None ==> opts.index is Brute,
            hnsw matches Some(idx) ==> opts.index is Hnsw && indexes_layer(idx, sl.experts@),
            ys.len() == t,
            holds_rows(out@, out_dim as nat, ys),
            forall|i: int|
                0 <= i < t ==> row_computed(*sl, act, opts, #[trigger] xs[i], ys[i]),
    {
        proof {
            reveal(layer_runs);
        }
        let x = row_at(h, in_dim, t, Ghost(seq as int));
        let hits = find_hits(sl, &hnsw, x, Ghost(opts.index));
        let ids = choose_experts(act, &hits);
        proof {
            lemma_hits_in_layer(*sl, opts.index, x@, hits@);
            lemma_chosen_among(act, hits@);
            assert(sl.experts.len() == sl.experts@.len());
            assert forall|i: int| 0 <= i < ids@.len() implies (#[trigger] ids@[i]) < sl.experts@.len() by {
                let c = chosen(act, hits@)[i];
                assert(hits@.contains(c));
                let j = choose|j: int| 0 <= j < hits@.len() && hits@[j] == c;
                assert(hits@[j].expert_id < sl.experts@.len());
            }
            lemma_any_ready(*sl, ids@);
        }
        let y = sparse_linear_with_kernel(sl, x, &ids, opts.kernel);
        proof {
            assert(row_computed(*sl, act, opts, xs[t as int], y@));
        }
        let ghost before = ys;
        let ghost new_row = y@;
        push_row(&mut out, y, Ghost(out_dim as nat), Ghost(before));
        proof {
            ys = before.push(new_row);
            assert forall|i: int| 0 <= i < t + 1 implies row_computed(
                *sl,
                act,
                opts,
                #[trigger] xs[i],
                ys[i],
            ) by {
                if i < t {
                    assert(ys[i] == before[i]);
                }
            }
        }
    }
    (out, Ghost(ys))
}

/// What is chosen is among the hits.
pub proof fn lemma_chosen_among<T: Scalar>(act: Activation<T>, hits: Seq<Hit<T>>)
    ensures
        forall|i: int|
            0 <= i < chosen(act, hits).len() ==> hits.contains(#[trigger] chosen(act, hits)[i]),
{
    match act {
        Activation::All => {},
        Activation::Threshold { ratio, max_k } => {
            if hits.len() > 0 {
                law_routed(hits, RouterConfig { threshold_ratio: ratio, max_k });
            }
        },
    }
}

/// With every expert activated it does not matter how they were found: a list of all of them
/// gives the output that the experts in order give.
pub proof fn law_all_activated<T: Scalar>(
    sl: SparseLayer<T>,
    x: Seq<T>,
    ids: Seq<usize>,
    kernel: KernelKind,
)
    requires
        rows_owned(sl),
        x.len() == sl.in_dim,
        layer_ready(sl, sl.in_dim as nat, counting(sl.experts@.len())),
        lists_range(ids, 0, sl.experts@.len() as int),
    ensures
        sparse_output(sl, x, ids, kernel) == sparse_output(
            sl,
            x,
            counting(sl.experts@.len()),
            kernel,
        ),
{
    let n = sl.experts@.len();
    let all = counting(n);
    assert(sl.experts.len() == n);
    lemma_any_ready(sl, ids);
    assert forall|e: usize| #[trigger] ids.contains(e) <==> all.contains(e) by {
        if ids.contains(e) {
            let i = choose|i: int| 0 <= i < ids.len() && ids[i] == e;
            assert(0 <= ids[i] < n);
            assert(all[e as int] == e);
        }
        if all.contains(e) {
            let i = choose|i: int| 0 <= i < all.len() && all[i] == e;
            lemma_listed(ids, n, e as int);
        }
    }
    law_activation_order_irrelevant(sl, x, ids, all, kernel);
}

/// An index of either kind lists every expert of a layer once.
pub proof fn law_index_lists_all<T: Scalar>(
    sl: SparseLayer<T>,
    kind: IndexKind,
    x: Seq<T>,
    hits: Seq<Hit<T>>,
)
    requires
        index_answers(sl, kind, x, hits),
    ensures
        lists_range(hit_ids(hits), 0, sl.experts@.len() as int),
{
    if kind is Hnsw {
        let idx = choose|idx: HnswIndex<T>|
            #[trigger] indexes_layer(idx, sl.experts@) && idx.answered_by(x, hits) && best_of_all(
                hits,
                scores_of(dists(x, idx.centroids@)),
                sl.experts@.len(),
            );
        let ids = hit_ids(hits);
        assert forall|i: int, j: int| 0 <= i < ids.len() && 0 <= j < ids.len() && i != j implies ids[i]
            != ids[j] by {
            if i < j {
                assert(hits[i].expert_id != hits[j].expert_id);
            } else {
                assert(hits[j].expert_id != hits[i].expert_id);
            }
        }
        assert forall|i: int| 0 <= i < ids.len() implies 0 <= #[trigger] ids[i]
            < sl.experts@.len() by {
            assert(hits[i].expert_id < sl.experts@.len());
        }
    }
}

/// With every expert activated, the output of a layer is that of all its experts in order,
/// whichever index finds them.
pub proof fn law_search_activates_all<T: Scalar>(
    sl: SparseLayer<T>,
    opts: SparseOptions,
    x: Seq<T>,
    y: Seq<T>,
)
    requires
        rows_owned(sl),
        layer_ready(sl, sl.in_dim as nat, counting(sl.experts@.len())),
        row_computed(sl, Activation::All, opts, x, y),
    ensures
        y == sparse_output(sl, x, counting(sl.experts@.len()), opts.kernel),
{
    let hits = choose|hits: Seq<Hit<T>>|
        #[trigger] index_answers(sl, opts.index, x, hits) && y == sparse_output(
            sl,
            x,
            hit_ids(chosen(Activation::All, hits)),
            opts.kernel,
        );
    law_index_lists_all(sl, opts.index, x, hits);
    law_all_activated(sl, x, hit_ids(hits), opts.kernel);
}

/// Whether the four layers of a block have the widths of the model and can be computed.
pub open spec fn block_runs<T: Scalar>(
    block: [SparseLayer<T>; 4],
    d: int,
    f: int,
    kind: IndexKind,
) -> bool {
    &&& block[0].in_dim == d && block[0].out_dim == 3 * d && layer_runs(block[0], kind)
    &&& block[1].in_dim == d && block[1].out_dim == d && layer_runs(block[1], kind)
    &&& block[2].in_dim == d && block[2].out_dim == f && layer_runs(block[2], kind)
    &&& block[3].in_dim == f && block[3].out_dim == d && layer_runs(block[3], kind)
}

/// Whether a transmuted model can be run: all its parts have the shapes that its sizes ask
/// for.
pub open spec fn model_runs<T: Scalar>(tm: TransmutedModel<T>, kind: IndexKind) -> bool {
    let c = tm.config;
    &&& has_shape(tm.token_embed, c.vocab_size as int, c.dim as int)
    &&& gains_fit(tm.ln1_gain@, c.num_layers as int, c.dim as int)
    &&& gains_fit(tm.ln2_gain@, c.num_layers as int, c.dim as int)
    &&& tm.ln_f_gain@.len() == c.dim
    &&& tm.layers@.len() == c.num_layers
    &&& forall|l: int|
        0 <= l < c.num_layers ==> block_runs(
            #[trigger] tm.layers@[l],
            c.dim as int,
            c.ff_dim as int,
            kind,
        )
    &&& 3 * c.dim <= usize::MAX
    &&& c.num_layers > 0 ==> c.num_heads > 0
}

/// Whether `qkv` and `proj` are the outputs of the two sparse layers in the attention part
/// of layer `l`, when `x` is the hidden state in front of it.
pub open spec fn attention_outputs<T: Scalar>(
    tm: TransmutedModel<T>,
    act: Activation<T>,
    opts: SparseOptions,
    l: int,
    x: Seq<Seq<T>>,
    qkv: Seq<Seq<T>>,
    proj: Seq<Seq<T>>,
) -> bool {
    let block = tm.layers@[l];
    &&& rows_computed(block[0], act, opts, norm_rows(x, tm.ln1_gain@[l]@), qkv)
    &&& rows_computed(
        block[1],
        act,
        opts,
        attended(qkv, tm.config.dim as int, tm.config.num_heads as int),
        proj,
    )
}

/// Whether `qkv`, `proj`, `up` and `down` are the outputs of the four sparse layers of
/// layer `l`, when `x` is the hidden state in front of it.
pub open spec fn block_outputs<T: Scalar>(
    tm: TransmutedModel<T>,
    act: Activation<T>,
    opts: SparseOptions,
    l: int,
    x: Seq<Seq<T>>,
    qkv: Seq<Seq<T>>,
    proj: Seq<Seq<T>>,
    up: Seq<Seq<T>>,
    down: Seq<Seq<T>>,
) -> bool {
    let block = tm.layers@[l];
    &&& attention_outputs(tm, act, opts, l, x, qkv, proj)
    &&& rows_computed(
        block[2],
        act,
        opts,
        norm_rows(added_rows(x, proj), tm.ln2_gain@[l]@),
        up,
    )
    &&& rows_computed(block[3], act, opts, gelu_rows(up), down)
}

/// Whether `y` is the hidden state behind layer `l`, when `x` is the one in front of it.
pub open spec fn sparse_step<T: Scalar>(
    tm: TransmutedModel<T>,
    act: Activation<T>,
    opts: SparseOptions,
    l: int,
    x: Seq<Seq<T>>,
    y: Seq<Seq<T>>,
) -> bool {
    exists|qkv: Seq<Seq<T>>, proj: Seq<Seq<T>>, up: Seq<Seq<T>>, down: Seq<Seq<T>>| #[trigger]
        block_outputs(tm, act, opts, l, x, qkv, proj, up, down) && y == added_rows(
            added_rows(x, proj),
            down,
        )
}

/// Whether layer `l` leads from one hidden state to the next.
pub open spec fn sparse_step_at<T: Scalar>(
    tm: TransmutedModel<T>,
    act: Activation<T>,
    opts: SparseOptions,
    l: int,
    states: Seq<Seq<Seq<T>>>,
) -> bool {
    sparse_step(tm, act, opts, l, states[l], states[l + 1])
}

/// Whether `states` are the hidden states of a sparse forward pass, from the embedded
/// tokens to the last layer.
pub open spec fn sparse_run<T: Scalar>(
    tm: TransmutedModel<T>,
    act: Activation<T>,
    opts: SparseOptions,
    tokens: Seq<u32>,
    states: Seq<Seq<Seq<T>>>,
) -> bool {
    &&& states.len() == tm.config.num_layers + 1
    &&& states[0] == embedded(tm.token_embed, tokens)
    &&& forall|l: int|
        0 <= l < tm.config.num_layers ==> #[trigger] sparse_step_at(tm, act, opts, l, states)
}

/// Runs the attention part of a layer. Returns the hidden state behind it.
fn sparse_attention<T: Scalar>(
    tm: &TransmutedModel<T>,
    act: Activation<T>,
    opts: SparseOptions,
    l: usize,
    x: &Vec<T>,
    seq: usize,
) -> (r: (Vec<T>, Ghost<Seq<Seq<T>>>, Ghost<Seq<Seq<T>>>))
    requires
        model_runs(*tm, opts.index),
        l < tm.config.num_layers,
        x@.len() == seq * tm.config.dim,
    ensures
        holds_rows(
            r.0@,
            tm.config.dim as nat,
            added_rows(rows_of(x@, seq as nat, tm.config.dim as nat), r.2@),
        ),
        attention_outputs(
            *tm,
            act,
            opts,
            l as int,
            rows_of(x@, seq as nat, tm.config.dim as nat),
            r.1@,
            r.2@,
        ),
        r.2@.len() == seq,
{
    let d: usize = tm.config.dim;
    let ghost xs = rows_of(x@, seq as nat, d as nat);
    let block = &tm.layers[l];
    proof {
        assert(block_runs(tm.layers@[l as int], d as int, tm.config.ff_dim as int, opts.index));
        assert(tm.ln1_gain@[l as int]@.len() == d);
        lemma_rows_held(x@, seq as nat, d as nat);
    }
    let h = layernorm(x, seq, d, &tm.ln1_gain[l]);
    let ghost hs = norm_rows(xs, tm.ln1_gain@[l as int]@);
    proof {
        lemma_rows_read(h@, d as nat, hs);
    }
    let (qkv_out, Ghost(qs)) = sparse_linear_seq(&block[IDX_QKV], &h, seq, act, opts);
    proof {
        lemma_rows_read(qkv_out@, (3 * d) as nat, qs);
    }
    let (q, k, v) = split_qkv(&qkv_out, seq, d);
    proof {
        lemma_rows_read(q@, d as nat, row_parts(qs, d as nat, 0));
        lemma_rows_read(k@, d as nat, row_parts(qs, d as nat, 1));
        lemma_rows_read(v@, d as nat, row_parts(qs, d as nat, 2));
    }
    let attn = causal_self_attention(&q, &k, &v, seq, d, tm.config.num_heads);
    proof {
        lemma_rows_read(attn@, d as nat, attended(qs, d as int, tm.config.num_heads as int));
    }
    let (proj, Ghost(ps)) = sparse_linear_seq(&block[IDX_ATTN_OUT], &attn, seq, act, opts);
    let x1 = add_all(x, &proj);
    proof {
        lemma_added_rows(x@, proj@, d as nat, xs, ps);
    }
    (x1, Ghost(qs), Ghost(ps))
}

/// Runs one layer. Returns the hidden state behind it.
fn sparse_layer<T: Scalar>(
    tm: &TransmutedModel<T>,
    act: Activation<T>,
    opts: SparseOptions,
    l: usize,
    x: &Vec<T>,
    seq: usize,
) -> (r: (Vec<T>, Ghost<Seq<Seq<T>>>))
    requires
        model_runs(*tm, opts.index),
        l < tm.config.num_layers,
        x@.len() == seq * tm.config.dim,
    ensures
        holds_rows(r.0@, tm.config.dim as nat, r.1@),
        r.1@.len() == seq,
        sparse_step(
            *tm,
            act,
            opts,
            l as int,
            rows_of(x@, seq as nat, tm.config.dim as nat),
            r.1@,
        ),
{
    let d: usize = tm.config.dim;
    let f: usize = tm.config.ff_dim;
    let ghost xs = rows_of(x@, seq as nat, d as nat);
    let block = &tm.layers[l];
    let (x1, Ghost(qs), Ghost(ps)) = sparse_attention(tm, act, opts, l, x, seq);
    let ghost x1s = added_rows(xs, ps);
    proof {
        assert(block_runs(tm.layers@[l as int], d as int, f as int, opts.index));
        assert(tm.ln2_gain@[l as int]@.len() == d);
        lemma_rows_read(x1@, d as nat, x1s);
        lemma_rows_held(x1@, seq as nat, d as nat);
    }
    let h2 = layernorm(&x1, seq, d, &tm.ln2_gain[l]);
    let ghost h2s = norm_rows(x1s, tm.ln2_gain@[l as int]@);
    proof {
        lemma_rows_read(h2@, d as nat, h2s);
    }
    let (up, Ghost(us)) = sparse_linear_seq(&block[IDX_FF_UP], &h2, seq, act, opts);
    let mut up = up;
    proof {
        lemma_gelu_rows(up@, f as nat, us);
    }
    gelu_inplace(&mut up);
    proof {
        lemma_rows_read(up@, f as nat, gelu_rows(us));
    }
    let (down, Ghost(ds)) = sparse_linear_seq(&block[IDX_FF_DOWN], &up, seq, act, opts);
    let y = add_all(&x1, &down);
    let ghost ys = added_rows(x1s, ds);
    proof {
        lemma_added_rows(x1@, down@, d as nat, x1s, ds);
        assert(block_outputs(*tm, act, opts, l as int, xs, qs, ps, us, ds));
    }
    (y, Ghost(ys))
}

/// The scores of the next token at each position, row by row, with the given options.
pub fn sparse_forward_with_options<T: Scalar>(
    tm: &TransmutedModel<T>,
    tokens: &[u32],
    act: Activation<T>,
    opts: SparseOptions,
) -> (r: Vec<T>)
    requires
        model_runs(*tm, opts.index),
        tm.config.vocab_size > 0 || tokens@.len() == 0,
    ensures
        exists|states: Seq<Seq<Seq<T>>>|
            #[trigger] sparse_run(*tm, act, opts, tokens@, states) && holds_rows(
                r@,
                tm.config.vocab_size as nat,
                applied_rows(tm.token_embed, norm_rows(states.last(), tm.ln_f_gain@)),
            ),
        r@.len() == tokens@.len() * tm.config.vocab_size,
{
    let seq: usize = tokens.len();
    let d: usize = tm.config.dim;
    let mut x = embed_tokens(&tm.token_embed, tokens);
    let ghost mut states: Seq<Seq<Seq<T>>> = seq![embedded(tm.token_embed, tokens@)];
    for l in 0..tm.config.num_layers
        invariant
            model_runs(*tm, opts.index),
            seq == tokens@.len(),
            d == tm.config.dim,
            states.len() == l + 1,
            states[0] == embedded(tm.token_embed, tokens@),
            states[l as int].len() == seq,
            holds_rows(x@, d as nat, states[l as int]),
            forall|k: int|
                0 <= k < l ==> #[trigger] sparse_step_at(*tm, act, opts, k, states),
    {
        proof {
            lemma_rows_read(x@, d as nat, states[l as int]);
        }
        let (y, Ghost(ys)) = sparse_layer(tm, act, opts, l, &x, seq);
        x = y;
        proof {
            let before = states;
            states = before.push(ys);
            assert forall|k: int| 0 <= k < l + 1 implies #[trigger] sparse_step_at(
                *tm,
                act,
                opts,
                k,
                states,
            ) by {
                assert(states[k] == before[k]);
                if k < l {
                    assert(sparse_step_at(*tm, act, opts, k, before));
                    assert(states[k + 1] == before[k + 1]);
                }
            }
        }
    }
    proof {
        lemma_rows_read(x@, d as nat, states.last());
        assert(sparse_run(*tm, act, opts, tokens@, states));
    }
    let h = layernorm(&x, seq, d, &tm.ln_f_gain);
    proof {
        lemma_rows_read(h@, d as nat, norm_rows(states.last(), tm.ln_f_gain@));
    }
    apply_to_rows(&h, seq, &tm.token_embed)
}

/// The scores of the next token at each position, row by row.
pub fn sparse_forward<T: Scalar>(
    tm: &TransmutedModel<T>,
    tokens: &[u32],
    act: Activation<T>,
) -> (r: Vec<T>)
    requires
        model_runs(*tm, IndexKind::Brute),
        tm.config.vocab_size > 0 || tokens@.len() == 0,
    ensures
        exists|states: Seq<Seq<Seq<T>>>|
            #[trigger] sparse_run(*tm, act, default_options(), tokens@, states) && holds_rows(
                r@,
                tm.config.vocab_size as nat,
                applied_rows(tm.token_embed, norm_rows(states.last(), tm.ln_f_gain@)),
            ),
        r@.len() == tokens@.len() * tm.config.vocab_size,
{
    sparse_forward_with_options(tm, tokens, act, SparseOptions::default())
}

/// Whether the weights of a layer can be put together: the core and the experts have the
/// rows and codes that they need, and no row has two owners.
#[verifier::opaque]
pub open spec fn layer_stored<T>(sl: SparseLayer<T>) -> bool {
    &&& sl.out_dim * sl.in_dim <= usize::MAX
    &&& rows_disjoint(sl.experts@, sl.out_dim as nat)
    &&& forall|k: int|
        0 <= k < sl.experts@.len() ==> expert_complete(
            #[trigger] sl.experts@[k],
            sl.pq_codebook,
            sl.in_dim as nat,
        )
    &&& sl.dense_core.wf()
    &&& sl.dense_core.rows == sl.core_row_ids@.len()
    &&& sl.dense_core.cols == sl.in_dim
    &&& ids_within(sl.core_row_ids@, sl.out_dim as nat)
    &&& sl.core_row_ids@.no_duplicates()
    &&& forall|i: int|
        0 <= i < sl.core_row_ids@.len() ==> !row_listed(
            sl.experts@,
            (#[trigger] sl.core_row_ids@[i]) as int,
        )
}

/// Whether `m` has the weights of a layer as its kernels compute with them: the rows of the
/// core, those of the experts, and zeros in rows that none of them has.
#[verifier::opaque]
pub open spec fn is_store<T: Scalar>(m: Matrix<T>, sl: SparseLayer<T>) -> bool {
    &&& m.wf()
    &&& m.rows == sl.out_dim
    &&& m.cols == sl.in_dim
    &&& forall|i: int|
        0 <= i < sl.core_row_ids@.len() ==> m.row_seq((#[trigger] sl.core_row_ids@[i]) as int)
            == sl.dense_core.row_seq(i)
    &&& forall|k: int, j: int|
        0 <= k < sl.experts@.len() && 0 <= j < sl.experts@[k].row_ids@.len() ==> m.row_seq(
            (#[trigger] sl.experts@[k].row_ids@[j]) as int,
        ) == quantized_row(sl.experts@[k], sl.pq_codebook, sl.in_dim as nat, j)
    &&& forall|q: int|
        0 <= q < sl.out_dim && !row_listed(sl.experts@, q) && !sl.core_row_ids@.contains(q as u32)
            ==> #[trigger] m.row_seq(q) == Seq::new(sl.in_dim as nat, |i: int| T::spec_zero())
}

/// There is one hidden row per token behind each layer.
pub proof fn lemma_sparse_run_len<T: Scalar>(
    tm: TransmutedModel<T>,
    act: Activation<T>,
    opts: SparseOptions,
    tokens: Seq<u32>,
    states: Seq<Seq<Seq<T>>>,
    l: int,
)
    requires
        sparse_run(tm, act, opts, tokens, states),
        0 <= l < states.len(),
    ensures
        states[l].len() == tokens.len(),
    decreases l,
{
    if l > 0 {
        lemma_sparse_run_len(tm, act, opts, tokens, states, l - 1);
        assert(sparse_step_at(tm, act, opts, l - 1, states));
    }
}

/// There is one hidden row per token behind each layer.
pub proof fn lemma_retrieval_run_len<T: Scalar>(
    tm: TransmutedModel<T>,
    act: Activation<T>,
    opts: SparseOptions,
    beta: T,
    tokens: Seq<u32>,
    states: Seq<Seq<Seq<T>>>,
    l: int,
)
    requires
        retrieval_run(tm, act, opts, beta, tokens, states),
        0 <= l < states.len(),
    ensures
        states[l].len() == tokens.len(),
    decreases l,
{
    if l > 0 {
        lemma_retrieval_run_len(tm, act, opts, beta, tokens, states, l - 1);
        assert(retrieval_step_at(tm, act, opts, beta, l - 1, states));
    }
}

/// Puts the weights of a layer together.
pub fn layer_store<T: Scalar>(sl: &SparseLayer<T>) -> (m: Matrix<T>)
    requires
        layer_stored(*sl),
        sl.out_dim <= u32::MAX,
    ensures
        is_store(m, *sl),
        m.wf(),
        m.rows == sl.out_dim,
        m.cols == sl.in_dim,
{
    proof {
        reveal(layer_stored);
        reveal(is_store);
    }
    let out_dim: usize = sl.out_dim;
    let in_dim: usize = sl.in_dim;
    let mut w = reconstruct_quantized_rows(&sl.experts, &sl.pq_codebook, out_dim, in_dim);
    let ghost w0 = w@;
    let ghost zeros = Seq::new(in_dim as nat, |i: int| T::spec_zero());
    for i in 0..sl.core_row_ids.len()
        invariant
            layer_stored(*sl),
            out_dim == sl.out_dim,
            in_dim == sl.in_dim,
            out_dim <= u32::MAX,
            w@.len() == out_dim * in_dim,
            forall|q: int|
                0 <= q < out_dim && !sl.core_row_ids@.contains(q as u32) ==> #[trigger] row_of(
                    w@,
                    in_dim as int,
                    q,
                ) == row_of(w0, in_dim as int, q),
            forall|j: int|
                0 <= j < i ==> row_of(w@, in_dim as int, (#[trigger] sl.core_row_ids@[j]) as int)
                    == sl.dense_core.row_seq(j),
    {
        let r: usize = sl.core_row_ids[i] as usize;
        proof {
            reveal(layer_stored);
        }
        assert(sl.core_row_ids@[i as int] < out_dim);
        let row = copy_all(
            row_at(&sl.dense_core.data, in_dim, i, Ghost(sl.core_row_ids@.len() as int)),
        );
        let ghost before = w@;
        write_row(&mut w, in_dim, r, &row, Ghost(out_dim as int));
        proof {
            assert(sl.core_row_ids@.contains(r as u32));
            assert forall|q: int|
                0 <= q < out_dim && !sl.core_row_ids@.contains(q as u32) implies #[trigger] row_of(
                w@,
                in_dim as int,
                q,
            ) == row_of(w0, in_dim as int, q) by {
                assert(q != r);
                assert(row_of(before, in_dim as int, q) == row_of(w0, in_dim as int, q));
            }
            assert forall|j: int| 0 <= j < i + 1 implies row_of(
                w@,
                in_dim as int,
                (#[trigger] sl.core_row_ids@[j]) as int,
            ) == sl.dense_core.row_seq(j) by {
                assert(sl.core_row_ids@[j] < out_dim);
                if j < i {
                    assert(sl.core_row_ids@[j] != sl.core_row_ids@[i as int]);
                    assert(row_of(before, in_dim as int, sl.core_row_ids@[j] as int)
                        == sl.dense_core.row_seq(j));
                }
            }
        }
    }
    let m = Matrix { rows: out_dim, cols: in_dim, data: w };
    proof {
        assert forall|k: int, j: int|
            0 <= k < sl.experts@.len() && 0 <= j < sl.experts@[k].row_ids@.len() implies m.row_seq(
            (#[trigger] sl.experts@[k].row_ids@[j]) as int,
        ) == quantized_row(sl.experts@[k], sl.pq_codebook, in_dim as nat, j) by {
            let q = sl.experts@[k].row_ids@[j];
            assert(ids_within(sl.experts@[k].row_ids@, out_dim as nat));
            assert(row_listed(sl.experts@, q as int));
            if sl.core_row_ids@.contains(q) {
                let i = choose|i: int| 0 <= i < sl.core_row_ids@.len() && sl.core_row_ids@[i] == q;
                assert(!row_listed(sl.experts@, sl.core_row_ids@[i] as int));
            }
            assert(q as int as u32 == q);
            assert(row_of(w@, in_dim as int, q as int) == row_of(w0, in_dim as int, q as int));
        }
        assert forall|q: int|
            0 <= q < out_dim && !row_listed(sl.experts@, q) && !sl.core_row_ids@.contains(
                q as u32,
            ) implies #[trigger] m.row_seq(q) == zeros by {
            assert(row_of(w@, in_dim as int, q) == row_of(w0, in_dim as int, q));
        }
    }
    m
}

/// Whether the feed-forward blocks of a transmuted model can be used as associative
/// memories.
pub open spec fn memories_stored<T>(tm: TransmutedModel<T>) -> bool {
    forall|l: int|
        0 <= l < tm.layers@.len() ==> layer_stored((#[trigger] tm.layers@[l])[2]) && layer_stored(
            tm.layers@[l][3],
        ) && tm.layers@[l][2].out_dim <= u32::MAX && tm.layers@[l][3].out_dim <= u32::MAX
}

/// Whether `qkv`, `proj`, `keys` and `values` are what layer `l` computes and retrieves
/// with, when `x` is the hidden state in front of it.
pub open spec fn memory_outputs<T: Scalar>(
    tm: TransmutedModel<T>,
    act: Activation<T>,
    opts: SparseOptions,
    l: int,
    x: Seq<Seq<T>>,
    qkv: Seq<Seq<T>>,
    proj: Seq<Seq<T>>,
    keys: Matrix<T>,
    values: Matrix<T>,
) -> bool {
    &&& attention_outputs(tm, act, opts, l, x, qkv, proj)
    &&& is_store(keys, tm.layers@[l][2])
    &&& is_store(values, tm.layers@[l][3])
}

/// Whether `y` is the hidden state behind layer `l` with retrieval, when `x` is the one in
/// front of it.
pub open spec fn retrieval_step<T: Scalar>(
    tm: TransmutedModel<T>,
    act: Activation<T>,
    opts: SparseOptions,
    beta: T,
    l: int,
    x: Seq<Seq<T>>,
    y: Seq<Seq<T>>,
) -> bool {
    exists|qkv: Seq<Seq<T>>, proj: Seq<Seq<T>>, keys: Matrix<T>, values: Matrix<T>| #[trigger]
        memory_outputs(tm, act, opts, l, x, qkv, proj, keys, values) && y == added_rows(
            added_rows(x, proj),
            retrieved_rows(
                keys,
                values,
                norm_rows(added_rows(x, proj), tm.ln2_gain@[l]@),
                beta,
            ),
        )
}

/// Whether layer `l` leads from one hidden state to the next.
pub open spec fn retrieval_step_at<T: Scalar>(
    tm: TransmutedModel<T>,
    act: Activation<T>,
    opts: SparseOptions,
    beta: T,
    l: int,
    states: Seq<Seq<Seq<T>>>,
) -> bool {
    retrieval_step(tm, act, opts, beta, l, states[l], states[l + 1])
}

/// Whether `states` are the hidden states of a sparse forward pass with retrieval.
pub open spec fn retrieval_run<T: Scalar>(
    tm: TransmutedModel<T>,
    act: Activation<T>,
    opts: SparseOptions,
    beta: T,
    tokens: Seq<u32>,
    states: Seq<Seq<Seq<T>>>,
) -> bool {
    &&& states.len() == tm.config.num_layers + 1
    &&& states[0] == embedded(tm.token_embed, tokens)
    &&& forall|l: int|
        0 <= l < tm.config.num_layers ==> #[trigger] retrieval_step_at(tm, act, opts, beta, l, states)
}

/// Runs one layer with retrieval. Returns the hidden state behind it.
fn retrieval_layer<T: Scalar>(
    tm: &TransmutedModel<T>,
    act: Activation<T>,
    opts: SparseOptions,
    beta: T,
    l: usize,
    x: &Vec<T>,
    seq: usize,
) -> (r: (Vec<T>, Ghost<Seq<Seq<T>>>))
    requires
        model_runs(*tm, opts.index),
        memories_stored(*tm),
        l < tm.config.num_layers,
        x@.len() == seq * tm.config.dim,
    ensures
        holds_rows(r.0@, tm.config.dim as nat, r.1@),
        r.1@.len() == seq,
        retrieval_step(
            *tm,
            act,
            opts,
            beta,
            l as int,
            rows_of(x@, seq as nat, tm.config.dim as nat),
            r.1@,
        ),
{
    let d: usize = tm.config.dim;
    let ghost xs = rows_of(x@, seq as nat, d as nat);
    let block = &tm.layers[l];
    proof {
        assert(block_runs(tm.layers@[l as int], d as int, tm.config.ff_dim as int, opts.index));
        assert(tm.ln2_gain@[l as int]@.len() == d);
        assert(layer_stored(tm.layers@[l as int][2]));
    }
    let (x1, Ghost(qs), Ghost(ps)) = sparse_attention(tm, act, opts, l, x, seq);
    let keys = layer_store(&block[IDX_FF_UP]);
    let values = layer_store(&block[IDX_FF_DOWN]);
    let ghost x1s = added_rows(xs, ps);
    proof {
        lemma_rows_read(x1@, d as nat, x1s);
    }
    let y = add_retrieved(&x1, seq, &tm.ln2_gain[l], &keys, &values, beta);
    let ghost ys = added_rows(
        x1s,
        retrieved_rows(keys, values, norm_rows(x1s, tm.ln2_gain@[l as int]@), beta),
    );
    proof {
        assert(memory_outputs(*tm, act, opts, l as int, xs, qs, ps, keys, values));
    }
    (y, Ghost(ys))
}

/// The scores of the next token at each position, row by row, with the feed-forward blocks
/// used as associative memories and the given options.
pub fn sparse_forward_hopfield_with_options<T: Scalar>(
    tm: &TransmutedModel<T>,
    tokens: &[u32],
    beta: T,
    act: Activation<T>,
    opts: SparseOptions,
) -> (r: Vec<T>)
    requires
        model_runs(*tm, opts.index),
        memories_stored(*tm),
        tm.config.vocab_size > 0 || tokens@.len() == 0,
    ensures
        exists|states: Seq<Seq<Seq<T>>>|
            #[trigger] retrieval_run(*tm, act, opts, beta, tokens@, states) && holds_rows(
                r@,
                tm.config.vocab_size as nat,
                applied_rows(tm.token_embed, norm_rows(states.last(), tm.ln_f_gain@)),
            ),
        r@.len() == tokens@.len() * tm.config.vocab_size,
{
    let seq: usize = tokens.len();
    let d: usize = tm.config.dim;
    let mut x = embed_tokens(&tm.token_embed, tokens);
    let ghost mut states: Seq<Seq<Seq<T>>> = seq![embedded(tm.token_embed, tokens@)];
    for l in 0..tm.config.num_layers
        invariant
            model_runs(*tm, opts.index),
            memories_stored(*tm),
            seq == tokens@.len(),
            d == tm.config.dim,
            states.len() == l + 1,
            states[0] == embedded(tm.token_embed, tokens@),
            states[l as int].len() == seq,
            holds_rows(x@, d as nat, states[l as int]),
            forall|k: int|
                0 <= k < l ==> #[trigger] retrieval_step_at(*tm, act, opts, beta, k, states),
    {
        proof {
            lemma_rows_read(x@, d as nat, states[l as int]);
        }
        let (y, Ghost(ys)) = retrieval_layer(tm, act, opts, beta, l, &x, seq);
        x = y;
        proof {
            let before = states;
            states = before.push(ys);
            assert forall|k: int| 0 <= k < l + 1 implies #[trigger] retrieval_step_at(
                *tm,
                act,
                opts,
                beta,
                k,
                states,
            ) by {
                assert(states[k] == before[k]);
                if k < l {
                    assert(retrieval_step_at(*tm, act, opts, beta, k, before));
                    assert(states[k + 1] == before[k + 1]);
                }
            }
        }
    }
    proof {
        lemma_rows_read(x@, d as nat, states.last());
        assert(retrieval_run(*tm, act, opts, beta, tokens@, states));
    }
    let h = layernorm(&x, seq, d, &tm.ln_f_gain);
    proof {
        lemma_rows_read(h@, d as nat, norm_rows(states.last(), tm.ln_f_gain@));
    }
    apply_to_rows(&h, seq, &tm.token_embed)
}

/// The scores of the next token at each position, row by row, with the feed-forward blocks
/// used as associative memories.
pub fn sparse_forward_hopfield<T: Scalar>(
    tm: &TransmutedModel<T>,
    tokens: &[u32],
    beta: T,
    act: Activation<T>,
) -> (r: Vec<T>)
    requires
        model_runs(*tm, IndexKind::Brute),
        memories_stored(*tm),
        tm.config.vocab_size > 0 || tokens@.len() == 0,
    ensures
        exists|states: Seq<Seq<Seq<T>>>|
            #[trigger] retrieval_run(*tm, act, default_options(), beta, tokens@, states)
                && holds_rows(
                r@,
                tm.config.vocab_size as nat,
                applied_rows(tm.token_embed, norm_rows(states.last(), tm.ln_f_gain@)),
            ),
        r@.len() == tokens@.len() * tm.config.vocab_size,
{
    sparse_forward_hopfield_with_options(tm, tokens, beta, act, SparseOptions::default())
}

} // verus!
