//! What a transmuted layer computes where experts are pruned.

use vstd::prelude::*;
use crate::calibration::{activations, column_means, Part};
use crate::cluster::{is_clustering, ClusterResult};
use crate::exact::{factors_swap, law_dot_symmetric};
use crate::kernel::{adds_exactly, lemma_plus_zero, KernelKind};
use crate::model_transmuter::{
    block_transmuted, is_transmuted_model, law_transmuted_core_row_dense, law_transmuted_layer_runs,
    law_transmuted_matches_store, part_index, part_matrix, part_transmuted,
};
use crate::options::IndexKind;
use crate::outlier::{is_outlier_split, OutlierResult};
use crate::pq::encoded;
use crate::reconstruction::multiplies_exactly;
use crate::rng::counting;
use crate::scalar::{dot_spec, Scalar};
use crate::sparse::{PqCodebook, SparseLayer, TransmutedModel};
use crate::sparse_forward::{is_store, layer_runs, lemma_any_ready};
use crate::sparse_linear::{law_pruned_row_gets_bias, sparse_output};
use crate::tensor::Matrix;
use crate::toy_lm::ToyLm;
use crate::transformer::applied;
use crate::transmuter::{
    config_fits, fitting_mean, is_transmuted, layer_built_from, lemma_experts_disjoint,
    quantized_row, TransmuteConfig,
};

verus! {

/// Every row of a transmuted layer is one of the core's or one of an expert's.
proof fn lemma_row_has_owner<T: Scalar>(
    sl: SparseLayer<T>,
    w: Matrix<T>,
    mean_input: Seq<T>,
    cal: Option<Seq<Seq<T>>>,
    cfg: TransmuteConfig<T>,
    q: int,
) -> (r: (int, int))
    requires
        w.wf(),
        w.rows <= i32::MAX,
        is_transmuted(sl, w, mean_input, cal, cfg),
        0 <= q < w.rows,
        !sl.core_row_ids@.contains(q as u32),
    ensures
        0 <= r.0 < sl.experts@.len(),
        0 <= r.1 < sl.experts@[r.0].row_ids@.len(),
        sl.experts@[r.0].row_ids@[r.1] == q,
{
    let mean = fitting_mean(mean_input, w.cols as nat);
    let (o, cl) = choose|o: OutlierResult<T>, cl: ClusterResult<T>|
        is_outlier_split(w, cfg.outlier, o) && is_clustering(o.residual, cfg.cluster, cl)
            && #[trigger] layer_built_from(sl, w, mean, cfg, o, cl);
    lemma_experts_disjoint(sl.experts@, w, cfg, o, cl, mean);
    assert(!o.core_row_ids@.contains(q as u32));
    choose|k: int, j: int|
        0 <= k < sl.experts@.len() && 0 <= j < sl.experts@[k].row_ids@.len()
            && #[trigger] sl.experts@[k].row_ids@[j] == q
}

/// The static bias stands in for the experts at the mean of the calibration inputs: with every
/// expert pruned, each row that is not the core's gives, for any input, what the dense matrix
/// gives for the mean. The rows of the core give what the dense matrix gives for the input.
/// So for the mean itself the whole output is that of the dense matrix.
pub proof fn law_pruned_layer_at_mean<T: Scalar>(
    sl: SparseLayer<T>,
    w: Matrix<T>,
    mean_input: Seq<T>,
    cal: Option<Seq<Seq<T>>>,
    cfg: TransmuteConfig<T>,
    x: Seq<T>,
    q: int,
)
    requires
        adds_exactly::<T>(),
        factors_swap::<T>(),
        w.wf(),
        w.rows <= i32::MAX,
        config_fits(w, cal, cfg),
        cfg.bias_mode is Mean,
        is_transmuted(sl, w, mean_input, cal, cfg),
        mean_input.len() == w.cols,
        x.len() == w.cols,
        0 <= q < w.rows,
    ensures
        sparse_output(sl, x, Seq::empty(), KernelKind::Scalar)[q] == dot_spec(
            w.row_seq(q),
            if sl.core_row_ids@.contains(q as u32) {
                x
            } else {
                mean_input
            },
        ),
        x == mean_input ==> sparse_output(sl, x, Seq::empty(), KernelKind::Scalar)[q] == applied(
            w,
            mean_input,
        )[q],
{
    let none: Seq<usize> = Seq::empty();
    let kind = KernelKind::Scalar;
    law_transmuted_layer_runs(sl, w, mean_input, cal, cfg, IndexKind::Brute);
    reveal(layer_runs);
    assert(sl.experts.len() == sl.experts@.len());
    lemma_any_ready(sl, none);
    if sl.core_row_ids@.contains(q as u32) {
        let i = choose|i: int| 0 <= i < sl.core_row_ids@.len() && sl.core_row_ids@[i] == q as u32;
        law_transmuted_core_row_dense(sl, w, mean_input, cal, cfg, x, none, i);
        lemma_plus_zero(dot_spec(w.row_seq(q), x));
    } else {
        let (k, j) = lemma_row_has_owner(sl, w, mean_input, cal, cfg, q);
        law_pruned_row_gets_bias(sl, x, none, kind, k, j);
        lemma_plus_zero(dot_spec(w.row_seq(q), mean_input));
    }
    if x == mean_input {
        law_dot_symmetric(w.row_seq(q), mean_input);
    }
}

/// The adaptive bias stands in for the experts at the entry of the codebook that is nearest to
/// the input: with every expert pruned, each row of an expert gives what it gives with every
/// expert activated for that entry.
pub proof fn law_pruned_layer_at_entry<T: Scalar>(
    sl: SparseLayer<T>,
    w: Matrix<T>,
    mean_input: Seq<T>,
    cal: Option<Seq<Seq<T>>>,
    cfg: TransmuteConfig<T>,
    m: Matrix<T>,
    cb: PqCodebook<T>,
    x: Seq<T>,
    entry: Seq<T>,
    q: int,
)
    requires
        adds_exactly::<T>(),
        multiplies_exactly::<T>(),
        w.wf(),
        w.rows <= i32::MAX,
        config_fits(w, cal, cfg),
        256 * w.rows <= usize::MAX,
        cfg.bias_mode is Adaptive,
        cal matches Some(rows) && rows.len() > 0,
        is_transmuted(sl, w, mean_input, cal, cfg),
        is_store(m, sl),
        sl.input_codebook == Some(cb),
        cb.entries() == 256,
        x.len() == w.cols,
        entry == cb.entry(0, encoded(x, cb)[0] as int),
        entry.len() == w.cols,
        0 <= q < w.rows,
        !sl.core_row_ids@.contains(q as u32),
    ensures
        sparse_output(sl, x, Seq::empty(), KernelKind::Scalar)[q] == sparse_output(
            sl,
            entry,
            counting(sl.experts@.len()),
            KernelKind::Scalar,
        )[q],
{
    let none: Seq<usize> = Seq::empty();
    let kind = KernelKind::Scalar;
    law_transmuted_layer_runs(sl, w, mean_input, cal, cfg, IndexKind::Brute);
    reveal(layer_runs);
    assert(sl.experts.len() == sl.experts@.len());
    lemma_any_ready(sl, none);
    let (k, j) = lemma_row_has_owner(sl, w, mean_input, cal, cfg, q);
    let table = sl.bias_table->Some_0@;
    let c = encoded(x, cb)[0] as int;
    assert(table.len() == 256 * sl.out_dim);
    law_pruned_row_gets_bias(sl, x, none, kind, k, j);
    assert(0 <= c < cb.entries());
    assert(table[c * sl.out_dim + sl.experts@[k].row_ids@[j]] == dot_spec(
        quantized_row(sl.experts@[k], sl.pq_codebook, sl.in_dim as nat, j),
        cb.entry(0, c),
    ));
    law_transmuted_matches_store(sl, w, mean_input, cal, cfg, m, entry, q);
    assert(m.row_seq(q) == quantized_row(sl.experts@[k], sl.pq_codebook, sl.in_dim as nat, j)) by {
        reveal(is_store);
        assert(m.row_seq(sl.experts@[k].row_ids@[j] as int) == quantized_row(
            sl.experts@[k],
            sl.pq_codebook,
            sl.in_dim as nat,
            j,
        ));
    }
    lemma_plus_zero(dot_spec(m.row_seq(q), entry));
}

/// In a transmuted model the bias of every layer stands in for the experts at the mean of what its
/// dense matrix gets from the calibration corpus: with every expert pruned, the layer gives for
/// that mean what the matrix gives.
pub proof fn law_pruned_model_at_means<T: Scalar>(
    tm: TransmutedModel<T>,
    lm: ToyLm<T>,
    ids: Seq<u32>,
    cfg: TransmuteConfig<T>,
    l: int,
    part: Part,
    q: int,
)
    requires
        adds_exactly::<T>(),
        factors_swap::<T>(),
        lm.wf(),
        is_transmuted_model(tm, lm, ids, cfg),
        cfg.bias_mode is Mean,
        0 <= l < lm.config.num_layers,
        ({
            let (w, width) = match part {
                Part::Qkv => (lm.weights.qkv@[l], lm.config.dim),
                Part::AttnOut => (lm.weights.attn_out@[l], lm.config.dim),
                Part::FfUp => (lm.weights.ff_up@[l], lm.config.dim),
                Part::FfDown => (lm.weights.ff_down@[l], lm.config.ff_dim),
            };
            &&& w.wf() && w.rows <= i32::MAX && w.cols == width
            &&& config_fits(w, Some(activations(lm, ids, l, part)), cfg)
            &&& 0 <= q < w.rows
        }),
    ensures
        ({
            let (w, layer) = match part {
                Part::Qkv => (lm.weights.qkv@[l], tm.layers@[l][0]),
                Part::AttnOut => (lm.weights.attn_out@[l], tm.layers@[l][1]),
                Part::FfUp => (lm.weights.ff_up@[l], tm.layers@[l][2]),
                Part::FfDown => (lm.weights.ff_down@[l], tm.layers@[l][3]),
            };
            let mean = column_means(activations(lm, ids, l, part), w.cols as nat);
            sparse_output(layer, mean, Seq::empty(), KernelKind::Scalar)[q] == applied(w, mean)[q]
        }),
{
    let block = tm.layers@[l];
    assert(block_transmuted(block, lm, ids, l, cfg));
    assert(part_transmuted(block[part_index(part)], lm, ids, l, part, cfg));
    let w = part_matrix(lm, l, part);
    let rows = activations(lm, ids, l, part);
    let mean = column_means(rows, w.cols as nat);
    law_pruned_layer_at_mean(block[part_index(part)], w, mean, Some(rows), cfg, mean, q);
}

} // verus!
