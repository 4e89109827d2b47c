//! Transmutation of a whole model: each weight matrix of each layer becomes a sparse
//! layer; the embedding and the gains stay as they are.

use vstd::prelude::*;
use crate::agreement::{memories_numbered, model_owned};
use crate::calibration::{
    activations, calibration_tokens, collect_activations, column_means, corpus_seq, mean_of_rows,
    part_width, LayerActivationRows, Part,
};
use crate::cluster::{is_clustering, ClusterResult};
use crate::config::{stub_of, Config};
use crate::error::{NseError, NseResult};
use crate::kernel::{adds_exactly, KernelKind};
use crate::options::IndexKind;
use crate::outlier::{is_outlier_split, OutlierResult};
use crate::pq::{row_seqs, rows_have_dim};
use crate::quantize::{row_codes, row_threshold, ternary_code};
use crate::reconstruction::{codes_ternary, law_all_experts_match_store, multiplies_exactly};
use crate::rng::counting;
use crate::scalar::{dot_spec, Scalar};
use crate::sparse::{ConfigStub, SparseLayer, TransmutedModel};
use crate::sparse_forward::{
    block_runs, is_store, layer_runs, layer_stored, lemma_any_ready, memories_stored, model_runs,
};
use crate::sparse_linear::{expert_ready, law_core_row_exact, rows_owned, sparse_output};
use crate::tensor::{copy_all, lemma_row_index, row_of, Matrix};
use crate::toy_lm::{can_run, has_shape, ToyLm};
use crate::transmuter::{
    config_fits, expert_complete, expert_of_cluster, is_transmuted, layer_built_from,
    lemma_clusters, lemma_experts_disjoint, normalized_rows, pq_rows, row_listed, sizes_addressable,
    ternary_rows, transmute_matrix_with_cal, QuantSchemeConfig, TransmuteConfig,
};

verus! {

/// The matrix of layer `l` that a part names.
pub open spec fn part_matrix<T>(lm: ToyLm<T>, l: int, part: Part) -> Matrix<T> {
    match part {
        Part::Qkv => lm.weights.qkv@[l],
        Part::AttnOut => lm.weights.attn_out@[l],
        Part::FfUp => lm.weights.ff_up@[l],
        Part::FfDown => lm.weights.ff_down@[l],
    }
}

/// The place of a part's sparse layer in a block.
pub open spec fn part_index(part: Part) -> int {
    match part {
        Part::Qkv => 0,
        Part::AttnOut => 1,
        Part::FfUp => 2,
        Part::FfDown => 3,
    }
}

/// The number of output rows of a part's matrix.
pub open spec fn part_rows(c: Config, part: Part) -> int {
    match part {
        Part::Qkv => 3 * c.dim,
        Part::AttnOut => c.dim as int,
        Part::FfUp => c.ff_dim as int,
        Part::FfDown => c.dim as int,
    }
}

/// Whether the sparse layer is the one for a part of layer `l`, calibrated on `ids`: its
/// mean input is that of the collected inputs, which are also the calibration rows.
pub open spec fn part_transmuted<T: Scalar>(
    sl: SparseLayer<T>,
    lm: ToyLm<T>,
    ids: Seq<u32>,
    l: int,
    part: Part,
    cfg: TransmuteConfig<T>,
) -> bool {
    let rows = activations(lm, ids, l, part);
    &&& is_transmuted(
        sl,
        part_matrix(lm, l, part),
        column_means(rows, part_width(lm, part)),
        Some(rows),
        cfg,
    )
    &&& rows_have_dim(rows, part_width(lm, part))
}

/// Whether the four sparse layers are those for layer `l`.
pub open spec fn block_transmuted<T: Scalar>(
    block: [SparseLayer<T>; 4],
    lm: ToyLm<T>,
    ids: Seq<u32>,
    l: int,
    cfg: TransmuteConfig<T>,
) -> bool {
    forall|part: Part|
        part_transmuted(#[trigger] block[part_index(part)], lm, ids, l, part, cfg)
}

/// Whether `tm` is the model that transmuting `lm` gives, calibrated on `ids`.
pub open spec fn is_transmuted_model<T: Scalar>(
    tm: TransmutedModel<T>,
    lm: ToyLm<T>,
    ids: Seq<u32>,
    cfg: TransmuteConfig<T>,
) -> bool {
    &&& tm.config == stub_of(lm.config)
    &&& same_matrix(tm.token_embed, lm.weights.token_embed)
    &&& same_gains(tm.ln1_gain@, lm.weights.ln1_gain@)
    &&& same_gains(tm.ln2_gain@, lm.weights.ln2_gain@)
    &&& tm.ln_f_gain@ == lm.weights.ln_f_gain@
    &&& tm.layers@.len() == lm.config.num_layers
    &&& forall|l: int|
        0 <= l < lm.config.num_layers ==> block_transmuted(
            #[trigger] tm.layers@[l],
            lm,
            ids,
            l,
            cfg,
        )
}

/// Whether two matrices have the same shape and the same numbers.
pub open spec fn same_matrix<T>(a: Matrix<T>, b: Matrix<T>) -> bool {
    a.rows == b.rows && a.cols == b.cols && a.data@ == b.data@
}

/// Whether two lists of gains have the same numbers.
pub open spec fn same_gains<T>(a: Seq<Vec<T>>, b: Seq<Vec<T>>) -> bool {
    a.len() == b.len() && forall|l: int| 0 <= l < a.len() ==> (#[trigger] a[l])@ == b[l]@
}

/// A copy of a matrix.
fn copy_matrix<T: Scalar>(m: &Matrix<T>) -> (r: Matrix<T>)
    ensures
        same_matrix(r, *m),
{
    Matrix { rows: m.rows, cols: m.cols, data: copy_all(&m.data) }
}

/// A copy of a list of gains.
fn copy_gains<T: Scalar>(gains: &Vec<Vec<T>>) -> (r: Vec<Vec<T>>)
    ensures
        same_gains(r@, gains@),
{
    let mut out: Vec<Vec<T>> = Vec::with_capacity(gains.len());
    for l in 0..gains.len()
        invariant
            out@.len() == l,
            forall|k: int| 0 <= k < l ==> (#[trigger] out@[k])@ == gains@[k]@,
    {
        out.push(copy_all(&gains[l]));
    }
    out
}

/// Whether the sizes that the configuration leads to can be addressed for every matrix of
/// a model, and its rows can be numbered.
pub open spec fn model_fits<T>(c: Config, cfg: TransmuteConfig<T>) -> bool {
    &&& 3 * c.dim <= i32::MAX
    &&& c.ff_dim <= i32::MAX
    &&& forall|part: Part|
        sizes_addressable(
            #[trigger] part_rows(c, part),
            if part is FfDown {
                c.ff_dim as int
            } else {
                c.dim as int
            },
            cfg,
        )
}

/// Whether some matrix of the model has no rows, so that there is nothing to train a
/// product quantiser on.
pub open spec fn lacks_rows<T>(c: Config, cfg: TransmuteConfig<T>) -> bool {
    cfg.quant is Pq && c.num_layers > 0 && (c.dim == 0 || c.ff_dim == 0)
}

/// The corpus that is calibrated on: the calibration corpus, or else the other.
pub open spec fn calibration_source(
    corpus: Option<&[u8]>,
    calibration_corpus: Option<&[u8]>,
) -> Option<Seq<u8>> {
    match calibration_corpus {
        Some(c) => Some(c@),
        None => corpus_seq(corpus),
    }
}

/// The sparse layer for one matrix and its collected inputs.
fn transmute_part<T: Scalar>(
    lm: &ToyLm<T>,
    w: &Matrix<T>,
    rows: &Vec<Vec<T>>,
    cfg: &TransmuteConfig<T>,
    Ghost(ids): Ghost<Seq<u32>>,
    Ghost(l): Ghost<int>,
    Ghost(part): Ghost<Part>,
) -> (r: NseResult<SparseLayer<T>>)
    requires
        lm.wf(),
        0 <= l < lm.config.num_layers,
        model_fits(lm.config, *cfg),
        *w == part_matrix(*lm, l, part),
        row_seqs(rows@) == activations(*lm, ids, l, part),
        rows_have_dim(row_seqs(rows@), part_width(*lm, part)),
    ensures
        w.rows == part_rows(lm.config, part),
        w.rows == 0 && cfg.quant is Pq ==> (r matches Err(NseError::Other(m)) && m@
            == "PQ requires at least one residual row to train the codebook"@),
        w.rows > 0 || cfg.quant is Ternary ==> (r matches Ok(sl) && part_transmuted(
            sl,
            *lm,
            ids,
            l,
            part,
            *cfg,
        )),
{
    proof {
        assert(sizes_addressable(
            part_rows(lm.config, part),
            part_width(*lm, part) as int,
            *cfg,
        ));
        assert(has_shape(*w, part_rows(lm.config, part), part_width(*lm, part) as int));
        assert forall|i: int| 0 <= i < rows@.len() implies w.cols <= (#[trigger] rows@[i])@.len() by {
            assert(row_seqs(rows@)[i].len() == part_width(*lm, part));
        }
    }
    let mean = mean_of_rows(rows, w.cols);
    transmute_matrix_with_cal(w, &mean, Some(rows), cfg)
}

/// The four sparse layers of layer `l`.
fn transmute_layer<T: Scalar>(
    lm: &ToyLm<T>,
    l: usize,
    acts: &LayerActivationRows<T>,
    cfg: &TransmuteConfig<T>,
    Ghost(ids): Ghost<Seq<u32>>,
) -> (r: NseResult<[SparseLayer<T>; 4]>)
    requires
        lm.wf(),
        l < lm.config.num_layers,
        model_fits(lm.config, *cfg),
        acts.has_layers(lm.config.num_layers as int),
        forall|part: Part| #[trigger]
            acts.rows(l as int, part) == activations(*lm, ids, l as int, part),
        forall|part: Part|
            rows_have_dim(#[trigger] acts.rows(l as int, part), part_width(*lm, part)),
    ensures
        lacks_rows(lm.config, *cfg) ==> (r matches Err(NseError::Other(m)) && m@
            == "PQ requires at least one residual row to train the codebook"@),
        !lacks_rows(lm.config, *cfg) ==> (r matches Ok(block) && block_transmuted(
            block,
            *lm,
            ids,
            l as int,
            *cfg,
        )),
{
    let w = &lm.weights;
    proof {
        assert(acts.rows(l as int, Part::Qkv) == row_seqs(acts.qkv@[l as int]@));
        assert(acts.rows(l as int, Part::AttnOut) == row_seqs(acts.attn_out@[l as int]@));
        assert(acts.rows(l as int, Part::FfUp) == row_seqs(acts.ff_up@[l as int]@));
        assert(acts.rows(l as int, Part::FfDown) == row_seqs(acts.ff_down@[l as int]@));
    }
    let qkv = match transmute_part(
        lm,
        &w.qkv[l],
        &acts.qkv[l],
        cfg,
        Ghost(ids),
        Ghost(l as int),
        Ghost(Part::Qkv),
    ) {
        Ok(sl) => sl,
        Err(e) => return Err(e),
    };
    let attn_out = match transmute_part(
        lm,
        &w.attn_out[l],
        &acts.attn_out[l],
        cfg,
        Ghost(ids),
        Ghost(l as int),
        Ghost(Part::AttnOut),
    ) {
        Ok(sl) => sl,
        Err(e) => return Err(e),
    };
    let ff_up = match transmute_part(
        lm,
        &w.ff_up[l],
        &acts.ff_up[l],
        cfg,
        Ghost(ids),
        Ghost(l as int),
        Ghost(Part::FfUp),
    ) {
        Ok(sl) => sl,
        Err(e) => return Err(e),
    };
    let ff_down = match transmute_part(
        lm,
        &w.ff_down[l],
        &acts.ff_down[l],
        cfg,
        Ghost(ids),
        Ghost(l as int),
        Ghost(Part::FfDown),
    ) {
        Ok(sl) => sl,
        Err(e) => return Err(e),
    };
    let block = [qkv, attn_out, ff_up, ff_down];
    proof {
        assert(block[0] == qkv);
        assert(block[1] == attn_out);
        assert(block[2] == ff_up);
        assert(block[3] == ff_down);
        assert forall|part: Part|
            part_transmuted(#[trigger] block[part_index(part)], *lm, ids, l as int, part, *cfg) by {
            match part {
                Part::Qkv => {},
                Part::AttnOut => {},
                Part::FfUp => {},
                Part::FfDown => {},
            }
        }
    }
    Ok(block)
}

/// Turns a model into a transmuted one. The bias, and the bias table of the adaptive mode,
/// are calibrated on `calibration_corpus`, or else on `corpus`, or else on nothing, which
/// makes the means zero. Product quantisation needs at least one row in each matrix.
pub fn transmute<T: Scalar>(
    lm: &ToyLm<T>,
    corpus: Option<&[u8]>,
    calibration_corpus: Option<&[u8]>,
    cfg: &TransmuteConfig<T>,
) -> (r: NseResult<TransmutedModel<T>>)
    requires
        lm.wf(),
        model_fits(lm.config, *cfg),
        calibration_source(corpus, calibration_corpus) matches Some(c) ==> can_run(
            lm.config,
            c.len(),
        ),
    ensures
        lacks_rows(lm.config, *cfg) ==> (r matches Err(NseError::Other(m)) && m@
            == "PQ requires at least one residual row to train the codebook"@),
        !lacks_rows(lm.config, *cfg) ==> (r matches Ok(tm) && is_transmuted_model(
            tm,
            *lm,
            calibration_tokens(calibration_source(corpus, calibration_corpus)),
            *cfg,
        )),
{
    let source = match calibration_corpus {
        Some(c) => Some(c),
        None => corpus,
    };
    let ghost ids = calibration_tokens(calibration_source(corpus, calibration_corpus));
    let acts = collect_activations(lm, source);
    let mut layers: Vec<[SparseLayer<T>; 4]> = Vec::with_capacity(lm.config.num_layers);
    for l in 0..lm.config.num_layers
        invariant
            lm.wf(),
            model_fits(lm.config, *cfg),
            acts.has_layers(lm.config.num_layers as int),
            forall|k: int, part: Part|
                0 <= k < lm.config.num_layers ==> #[trigger] acts.rows(k, part) == activations(
                    *lm,
                    ids,
                    k,
                    part,
                ),
            forall|k: int, part: Part|
                0 <= k < lm.config.num_layers ==> rows_have_dim(
                    #[trigger] acts.rows(k, part),
                    part_width(*lm, part),
                ),
            layers@.len() == l,
            l > 0 ==> !lacks_rows(lm.config, *cfg),
            forall|k: int|
                0 <= k < l ==> block_transmuted(#[trigger] layers@[k], *lm, ids, k, *cfg),
    {
        match transmute_layer(lm, l, &acts, cfg, Ghost(ids)) {
            Ok(block) => layers.push(block),
            Err(e) => return Err(e),
        }
    }
    let c = &lm.config;
    Ok(
        TransmutedModel {
            config: ConfigStub::from(c.copied()),
            token_embed: copy_matrix(&lm.weights.token_embed),
            layers,
            ln1_gain: copy_gains(&lm.weights.ln1_gain),
            ln2_gain: copy_gains(&lm.weights.ln2_gain),
            ln_f_gain: copy_all(&lm.weights.ln_f_gain),
        },
    )
}

/// A transmuted layer can be computed for any input of its width, whichever experts are
/// activated.
pub proof fn law_transmuted_layer_runs<T: Scalar>(
    sl: SparseLayer<T>,
    w: Matrix<T>,
    mean_input: Seq<T>,
    cal: Option<Seq<Seq<T>>>,
    cfg: TransmuteConfig<T>,
    kind: IndexKind,
)
    requires
        w.wf(),
        w.rows <= i32::MAX,
        config_fits(w, cal, cfg),
        cfg.bias_mode is Adaptive ==> 256 * w.rows <= usize::MAX,
        is_transmuted(sl, w, mean_input, cal, cfg),
    ensures
        layer_runs(sl, kind),
{
    reveal(layer_runs);
    let mean = crate::transmuter::fitting_mean(mean_input, w.cols as nat);
    let (o, cl) = choose|o: OutlierResult<T>, cl: ClusterResult<T>|
        is_outlier_split(w, cfg.outlier, o) && is_clustering(o.residual, cfg.cluster, cl)
            && #[trigger] layer_built_from(sl, w, mean, cfg, o, cl);
    let all = counting(sl.experts@.len());
    lemma_experts_few(sl, w, cfg, o, cl);
    assert forall|i: int| 0 <= i < all.len() implies (#[trigger] all[i]) < sl.experts@.len()
        && expert_ready(
        sl.experts@[all[i] as int],
        sl.pq_codebook,
        sl.in_dim as nat,
        sl.out_dim as nat,
    ) by {
        let e = sl.experts@[i];
        assert(sl.experts.len() == sl.experts@.len());
        assert(all[i] == i);
        assert(expert_of_cluster(e, i, cl, o.residual_row_ids@, mean));
        match cfg.quant {
            QuantSchemeConfig::Ternary => {
                assert(ternary_rows(e, cl.members@[i]@, o.residual));
            },
            QuantSchemeConfig::Pq { num_sub_vectors, nbits, iters, seed } => {
                let cb = sl.pq_codebook->Some_0;
                assert(pq_rows(e, cl.members@[i]@, o.residual, cb));
                lemma_row_index(o.residual.rows as int, o.residual.cols as int, 0);
                assert(normalized_rows(o.residual)[0].len() == w.cols);
            },
        }
    }
}

/// There are no more experts than rows.
proof fn lemma_experts_few<T: Scalar>(
    sl: SparseLayer<T>,
    w: Matrix<T>,
    cfg: TransmuteConfig<T>,
    o: OutlierResult<T>,
    cl: ClusterResult<T>,
)
    requires
        w.wf(),
        w.rows <= i32::MAX,
        is_outlier_split(w, cfg.outlier, o),
        is_clustering(o.residual, cfg.cluster, cl),
        sl.experts@.len() == cl.members@.len(),
    ensures
        sl.experts@.len() <= i32::MAX,
{
    lemma_clusters(w, cfg, o, cl);
}

/// A transmuted model can be run.
pub proof fn law_transmuted_model_runs<T: Scalar>(
    tm: TransmutedModel<T>,
    lm: ToyLm<T>,
    ids: Seq<u32>,
    cfg: TransmuteConfig<T>,
    kind: IndexKind,
)
    requires
        lm.wf(),
        model_fits(lm.config, cfg),
        cfg.bias_mode is Adaptive ==> 256 * (3 * lm.config.dim) <= usize::MAX && 256
            * lm.config.ff_dim <= usize::MAX,
        lm.config.num_layers > 0 ==> lm.config.num_heads > 0,
        is_transmuted_model(tm, lm, ids, cfg),
    ensures
        model_runs(tm, kind),
{
    let c = lm.config;
    assert forall|l: int| 0 <= l < c.num_layers implies block_runs(
        #[trigger] tm.layers@[l],
        c.dim as int,
        c.ff_dim as int,
        kind,
    ) by {
        let block = tm.layers@[l];
        assert(block_transmuted(block, lm, ids, l, cfg));
        lemma_part_runs(block[part_index(Part::Qkv)], lm, ids, l, Part::Qkv, cfg, kind);
        lemma_part_runs(block[part_index(Part::AttnOut)], lm, ids, l, Part::AttnOut, cfg, kind);
        lemma_part_runs(block[part_index(Part::FfUp)], lm, ids, l, Part::FfUp, cfg, kind);
        lemma_part_runs(block[part_index(Part::FfDown)], lm, ids, l, Part::FfDown, cfg, kind);
    }
}

proof fn lemma_part_runs<T: Scalar>(
    sl: SparseLayer<T>,
    lm: ToyLm<T>,
    ids: Seq<u32>,
    l: int,
    part: Part,
    cfg: TransmuteConfig<T>,
    kind: IndexKind,
)
    requires
        lm.wf(),
        0 <= l < lm.config.num_layers,
        model_fits(lm.config, cfg),
        cfg.bias_mode is Adaptive ==> 256 * (3 * lm.config.dim) <= usize::MAX && 256
            * lm.config.ff_dim <= usize::MAX,
        part_transmuted(sl, lm, ids, l, part, cfg),
    ensures
        layer_runs(sl, kind),
        sl.in_dim == part_width(lm, part),
        sl.out_dim == part_rows(lm.config, part),
{
    let w = part_matrix(lm, l, part);
    let rows = activations(lm, ids, l, part);
    assert(has_shape(w, part_rows(lm.config, part), part_width(lm, part) as int));
    assert(sizes_addressable(
        part_rows(lm.config, part),
        part_width(lm, part) as int,
        cfg,
    ));
    law_transmuted_layer_runs(
        sl,
        w,
        column_means(rows, part_width(lm, part)),
        Some(rows),
        cfg,
        kind,
    );
}

/// In every layer of a transmuted model each row belongs to the core or to one expert, and the
/// rows of the feed-forward blocks can be numbered. So the choice of kernels and of the index
/// does not change what it computes: see [`crate::agreement`].
pub proof fn law_transmuted_model_owned<T: Scalar>(
    tm: TransmutedModel<T>,
    lm: ToyLm<T>,
    ids: Seq<u32>,
    cfg: TransmuteConfig<T>,
)
    requires
        model_fits(lm.config, cfg),
        is_transmuted_model(tm, lm, ids, cfg),
        lm.wf(),
    ensures
        model_owned(tm),
        memories_numbered(tm),
{
    let c = lm.config;
    assert forall|l: int, m: int| 0 <= l < tm.layers@.len() && 0 <= m < 4 implies rows_owned(
        #[trigger] tm.layers@[l][m],
    ) by {
        lemma_block_owned(tm.layers@[l], lm, ids, l, cfg);
    }
    assert forall|l: int| 0 <= l < tm.layers@.len() implies (#[trigger] tm.layers@[l])[2].out_dim
        <= u32::MAX && tm.layers@[l][3].out_dim <= u32::MAX by {
        lemma_block_owned(tm.layers@[l], lm, ids, l, cfg);
    }
}

proof fn lemma_block_owned<T: Scalar>(
    block: [SparseLayer<T>; 4],
    lm: ToyLm<T>,
    ids: Seq<u32>,
    l: int,
    cfg: TransmuteConfig<T>,
)
    requires
        lm.wf(),
        0 <= l < lm.config.num_layers,
        model_fits(lm.config, cfg),
        block_transmuted(block, lm, ids, l, cfg),
    ensures
        forall|m: int| 0 <= m < 4 ==> rows_owned(#[trigger] block[m]),
        block[2].out_dim <= u32::MAX,
        block[3].out_dim <= u32::MAX,
{
    let qkv = block[part_index(Part::Qkv)];
    let out = block[part_index(Part::AttnOut)];
    let up = block[part_index(Part::FfUp)];
    let down = block[part_index(Part::FfDown)];
    assert(part_transmuted(qkv, lm, ids, l, Part::Qkv, cfg));
    assert(part_transmuted(out, lm, ids, l, Part::AttnOut, cfg));
    assert(part_transmuted(up, lm, ids, l, Part::FfUp, cfg));
    assert(part_transmuted(down, lm, ids, l, Part::FfDown, cfg));
    assert(has_shape(lm.weights.ff_up@[l], lm.config.ff_dim as int, lm.config.dim as int));
    assert(has_shape(lm.weights.ff_down@[l], lm.config.dim as int, lm.config.ff_dim as int));
}

/// The weights of a transmuted layer can be put together again.
pub proof fn law_transmuted_layer_stored<T: Scalar>(
    sl: SparseLayer<T>,
    w: Matrix<T>,
    mean_input: Seq<T>,
    cal: Option<Seq<Seq<T>>>,
    cfg: TransmuteConfig<T>,
)
    requires
        w.wf(),
        w.rows <= i32::MAX,
        is_transmuted(sl, w, mean_input, cal, cfg),
    ensures
        layer_stored(sl),
        sl.out_dim == w.rows,
{
    reveal(layer_stored);
    let mean = crate::transmuter::fitting_mean(mean_input, w.cols as nat);
    let (o, cl) = choose|o: OutlierResult<T>, cl: ClusterResult<T>|
        is_outlier_split(w, cfg.outlier, o) && is_clustering(o.residual, cfg.cluster, cl)
            && #[trigger] layer_built_from(sl, w, mean, cfg, o, cl);
    lemma_experts_disjoint(sl.experts@, w, cfg, o, cl, mean);
    assert(w.data.len() == w.data@.len());
    assert forall|k: int| 0 <= k < sl.experts@.len() implies expert_complete(
        #[trigger] sl.experts@[k],
        sl.pq_codebook,
        sl.in_dim as nat,
    ) by {
        let e = sl.experts@[k];
        assert(expert_of_cluster(e, k, cl, o.residual_row_ids@, mean));
        match cfg.quant {
            QuantSchemeConfig::Ternary => {
                assert(ternary_rows(e, cl.members@[k]@, o.residual));
            },
            QuantSchemeConfig::Pq { num_sub_vectors, nbits, iters, seed } => {
                let cb = sl.pq_codebook->Some_0;
                assert(pq_rows(e, cl.members@[k]@, o.residual, cb));
                lemma_row_index(o.residual.rows as int, o.residual.cols as int, 0);
                assert(normalized_rows(o.residual)[0].len() == w.cols);
            },
        }
    }
    assert forall|i: int| 0 <= i < sl.core_row_ids@.len() implies !row_listed(
        sl.experts@,
        (#[trigger] sl.core_row_ids@[i]) as int,
    ) by {
        if row_listed(sl.experts@, sl.core_row_ids@[i] as int) {
            let (k, j) = choose|k: int, j: int|
                0 <= k < sl.experts@.len() && 0 <= j < sl.experts@[k].row_ids@.len()
                    && #[trigger] sl.experts@[k].row_ids@[j] == sl.core_row_ids@[i] as int;
            assert(sl.experts@[k].row_ids@[j] != o.core_row_ids@[i]);
        }
    }
}

/// The feed-forward blocks of a transmuted model can be used as associative memories.
pub proof fn law_transmuted_memories_stored<T: Scalar>(
    tm: TransmutedModel<T>,
    lm: ToyLm<T>,
    ids: Seq<u32>,
    cfg: TransmuteConfig<T>,
)
    requires
        lm.wf(),
        model_fits(lm.config, cfg),
        is_transmuted_model(tm, lm, ids, cfg),
    ensures
        memories_stored(tm),
{
    let c = lm.config;
    assert forall|l: int| 0 <= l < tm.layers@.len() implies layer_stored(
        (#[trigger] tm.layers@[l])[2],
    ) && layer_stored(tm.layers@[l][3]) && tm.layers@[l][2].out_dim <= u32::MAX
        && tm.layers@[l][3].out_dim <= u32::MAX by {
        let block = tm.layers@[l];
        assert(block_transmuted(block, lm, ids, l, cfg));
        let up = block[part_index(Part::FfUp)];
        let down = block[part_index(Part::FfDown)];
        assert(part_transmuted(up, lm, ids, l, Part::FfUp, cfg));
        assert(part_transmuted(down, lm, ids, l, Part::FfDown, cfg));
        assert(has_shape(lm.weights.ff_up@[l], c.ff_dim as int, c.dim as int));
        assert(has_shape(lm.weights.ff_down@[l], c.dim as int, c.ff_dim as int));
        let ru = activations(lm, ids, l, Part::FfUp);
        let rd = activations(lm, ids, l, Part::FfDown);
        law_transmuted_layer_stored(
            up,
            lm.weights.ff_up@[l],
            column_means(ru, part_width(lm, Part::FfUp)),
            Some(ru),
            cfg,
        );
        law_transmuted_layer_stored(
            down,
            lm.weights.ff_down@[l],
            column_means(rd, part_width(lm, Part::FfDown)),
            Some(rd),
            cfg,
        );
    }
}

/// A row that transmutation puts into the core is computed as the dense matrix computes it,
/// whichever experts are activated.
pub proof fn law_transmuted_core_row_dense<T: Scalar>(
    sl: SparseLayer<T>,
    w: Matrix<T>,
    mean_input: Seq<T>,
    cal: Option<Seq<Seq<T>>>,
    cfg: TransmuteConfig<T>,
    x: Seq<T>,
    activated: Seq<usize>,
    i: int,
)
    requires
        w.wf(),
        w.rows <= i32::MAX,
        config_fits(w, cal, cfg),
        cfg.bias_mode is Adaptive ==> 256 * w.rows <= usize::MAX,
        is_transmuted(sl, w, mean_input, cal, cfg),
        x.len() == w.cols,
        activated.no_duplicates(),
        forall|k: int| 0 <= k < activated.len() ==> (#[trigger] activated[k]) < sl.experts@.len(),
        0 <= i < sl.core_row_ids@.len(),
    ensures
        sparse_output(sl, x, activated, KernelKind::Scalar)[sl.core_row_ids@[i] as int]
            == T::spec_zero().plus_spec(dot_spec(w.row_seq(sl.core_row_ids@[i] as int), x)),
{
    let mean = crate::transmuter::fitting_mean(mean_input, w.cols as nat);
    let (o, cl) = choose|o: OutlierResult<T>, cl: ClusterResult<T>|
        is_outlier_split(w, cfg.outlier, o) && is_clustering(o.residual, cfg.cluster, cl)
            && #[trigger] layer_built_from(sl, w, mean, cfg, o, cl);
    law_transmuted_layer_runs(sl, w, mean_input, cal, cfg, IndexKind::Brute);
    reveal(layer_runs);
    assert(sl.experts.len() == sl.experts@.len());
    lemma_any_ready(sl, activated);
    assert(sl.core_row_ids@[i] < sl.out_dim);
    law_core_row_exact(sl, x, activated, KernelKind::Scalar, i);
    assert(o.dense_core.row_seq(i) == w.row_seq(o.core_row_ids@[i] as int));
    assert(sl.dense_core.row_seq(i) == o.dense_core.row_seq(i));
}

/// The experts of a transmuted layer that are ternary have ternary codes.
proof fn lemma_transmuted_codes<T: Scalar>(
    sl: SparseLayer<T>,
    w: Matrix<T>,
    mean_input: Seq<T>,
    cal: Option<Seq<Seq<T>>>,
    cfg: TransmuteConfig<T>,
)
    requires
        w.wf(),
        w.rows <= i32::MAX,
        is_transmuted(sl, w, mean_input, cal, cfg),
    ensures
        codes_ternary(sl),
        forall|k: int|
            0 <= k < sl.experts@.len() ==> ((#[trigger] sl.experts@[k]).pq is Some
                ==> sl.pq_codebook is Some),
{
    let mean = crate::transmuter::fitting_mean(mean_input, w.cols as nat);
    let (o, cl) = choose|o: OutlierResult<T>, cl: ClusterResult<T>|
        is_outlier_split(w, cfg.outlier, o) && is_clustering(o.residual, cfg.cluster, cl)
            && #[trigger] layer_built_from(sl, w, mean, cfg, o, cl);
    assert forall|k: int, t: int|
        0 <= k < sl.experts@.len() && 0 <= t < sl.experts@[k].ternary@.len() implies -1
        <= #[trigger] sl.experts@[k].ternary@[t] <= 1 by {
        let e = sl.experts@[k];
        match cfg.quant {
            QuantSchemeConfig::Ternary => {
                assert(ternary_rows(e, cl.members@[k]@, o.residual));
                let cols = o.residual.cols as int;
                let n = cl.members@[k]@.len() as int;
                lemma_place(t, cols, n);
                let i = t / cols;
                lemma_row_index(n, cols, i);
                let row = o.residual.row_seq(cl.members@[k]@[i] as int);
                assert(row_of(e.ternary@, cols, i) == row_codes(row));
                assert(row_of(e.ternary@, cols, i)[t % cols] == e.ternary@[t]);
                assert(row_codes(row)[t % cols] == ternary_code(
                    row[t % cols],
                    row_threshold(row),
                ));
            },
            QuantSchemeConfig::Pq { num_sub_vectors, nbits, iters, seed } => {
                assert(pq_rows(e, cl.members@[k]@, o.residual, sl.pq_codebook->Some_0));
            },
        }
    }
    assert forall|k: int| 0 <= k < sl.experts@.len() implies ((#[trigger] sl.experts@[k]).pq is Some
        ==> sl.pq_codebook is Some) by {
        match cfg.quant {
            QuantSchemeConfig::Ternary => {
                assert(ternary_rows(sl.experts@[k], cl.members@[k]@, o.residual));
            },
            QuantSchemeConfig::Pq { num_sub_vectors, nbits, iters, seed } => {},
        }
    }
}

/// The row and column of a place.
proof fn lemma_place(t: int, cols: int, n: int)
    requires
        0 <= t < n * cols,
        0 <= cols,
        0 <= n,
    ensures
        cols > 0,
        0 <= t / cols < n,
        0 <= t % cols < cols,
        t == (t / cols) * cols + t % cols,
{
    assert(cols > 0) by (nonlinear_arith)
        requires
            0 <= t < n * cols,
            0 <= cols,
            0 <= n,
    ;
    vstd::arithmetic::div_mod::lemma_fundamental_div_mod(t, cols);
    assert((t / cols) * cols == cols * (t / cols)) by (nonlinear_arith);
    assert(t / cols < n) by (nonlinear_arith)
        requires
            0 <= t < n * cols,
            cols > 0,
    ;
    assert(0 <= t / cols) by (nonlinear_arith)
        requires
            0 <= t,
            cols > 0,
    ;
}

/// With every expert activated, a transmuted layer computes with the weights that it stands
/// for: every row of its output is the inner product of the input with the stored row, where
/// arithmetic is exact.
pub proof fn law_transmuted_matches_store<T: Scalar>(
    sl: SparseLayer<T>,
    w: Matrix<T>,
    mean_input: Seq<T>,
    cal: Option<Seq<Seq<T>>>,
    cfg: TransmuteConfig<T>,
    m: Matrix<T>,
    x: Seq<T>,
    q: int,
)
    requires
        adds_exactly::<T>(),
        multiplies_exactly::<T>(),
        w.wf(),
        w.rows <= i32::MAX,
        config_fits(w, cal, cfg),
        cfg.bias_mode is Adaptive ==> 256 * w.rows <= usize::MAX,
        is_transmuted(sl, w, mean_input, cal, cfg),
        is_store(m, sl),
        x.len() == w.cols,
        0 <= q < w.rows,
    ensures
        sparse_output(sl, x, counting(sl.experts@.len()), KernelKind::Scalar)[q] == dot_spec(
            m.row_seq(q),
            x,
        ),
{
    let mean = crate::transmuter::fitting_mean(mean_input, w.cols as nat);
    let (o, cl) = choose|o: OutlierResult<T>, cl: ClusterResult<T>|
        is_outlier_split(w, cfg.outlier, o) && is_clustering(o.residual, cfg.cluster, cl)
            && #[trigger] layer_built_from(sl, w, mean, cfg, o, cl);
    law_transmuted_layer_runs(sl, w, mean_input, cal, cfg, IndexKind::Brute);
    law_transmuted_layer_stored(sl, w, mean_input, cal, cfg);
    lemma_transmuted_codes(sl, w, mean_input, cal, cfg);
    lemma_experts_disjoint(sl.experts@, w, cfg, o, cl, mean);
    reveal(layer_runs);
    if !sl.core_row_ids@.contains(q as u32) {
        assert(!o.core_row_ids@.contains(q as u32));
        let (k, j) = choose|k: int, j: int|
            0 <= k < sl.experts@.len() && 0 <= j < sl.experts@[k].row_ids@.len()
                && #[trigger] sl.experts@[k].row_ids@[j] == q;
        assert(row_listed(sl.experts@, q));
    }
    law_all_experts_match_store(sl, m, x, q);
}

} // verus!
