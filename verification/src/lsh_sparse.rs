//! Training in which each step changes only some rows of the weight matrices: those that
//! the activations of the window hash to.

use vstd::prelude::*;
use vstd::arithmetic::power2::{lemma2_to64, lemma_pow2_strictly_increases, pow2};
use crate::autograd::{
    backward, cache_shaped, cached, forward_cached, grads_are, grads_fit, law_cached_is_shaped,
    layer_shaped, ForwardCache, ToyLmGrads,
};
use crate::config::Config;
use crate::error::NseResult;
use crate::lsh::{mask_by_lsh, masked, planes_spec, LshIndex};
use crate::scalar::Scalar;
use crate::sgd::{starts_with, take_velocities};
use crate::sgd_apply::{apply_step, took_step};
use crate::tensor::{copy_range, Matrix};
use crate::tokenizer::corpus_tokens;
use crate::toy_lm::{can_run, has_shape, sizes_fit, ToyLm};
use crate::trainer::{
    lemma_step_count, lr_at, num_windows, refused_as_small, tokenize, too_small, too_small_error,
    trainable, window, Trainer,
};
use crate::transformer::one;

verus! {

/// The settings of sparse training.
#[derive(Debug, Clone, Copy)]
pub struct LshSparseConfig<T> {
    pub learning_rate: T,
    /// The length of the windows.
    pub seq_len: usize,
    pub epochs: usize,
    /// What the learning rate is multiplied by after each epoch.
    pub lr_decay: T,
    /// The share of rows that a step changes.
    pub sparse_fraction: T,
    pub momentum: T,
    /// The largest norm of all gradients together.
    pub max_grad_norm: T,
    /// How often callers report progress; zero for silence.
    pub log_every: usize,
    /// The seed of the hyperplanes.
    pub seed: u64,
}

impl<T: Scalar> Default for LshSparseConfig<T> {
    fn default() -> (r: Self)
        ensures
            r.learning_rate == one::<T>().over_spec(T::spec_count(20)),
            r.seq_len == 16,
            r.epochs == 40,
            r.lr_decay == one::<T>(),
            r.sparse_fraction == one::<T>().over_spec(T::spec_count(100)),
            r.momentum == T::spec_count(9).over_spec(T::spec_count(10)),
            r.max_grad_norm == one::<T>(),
            r.log_every == 0,
            r.seed == 7,
    {
        LshSparseConfig {
            learning_rate: T::from_count(1).over(T::from_count(20)),
            seq_len: 16,
            epochs: 40,
            lr_decay: T::from_count(1),
            sparse_fraction: T::from_count(1).over(T::from_count(100)),
            momentum: T::from_count(9).over(T::from_count(10)),
            max_grad_norm: T::from_count(1),
            log_every: 0,
            seed: 7,
        }
    }
}

/// Gradient descent with momentum in which gradients are masked by hashing. The velocities
/// are kept from one training to the next.
#[derive(Debug, Clone)]
pub struct LshSparseTrainer<T> {
    pub config: LshSparseConfig<T>,
    /// The velocities, once there are any.
    pub vel: Option<ToyLmGrads<T>>,
}

/// A fraction, but at least a millionth and at most one.
pub open spec fn clamped_fraction<T: Scalar>(fraction: T) -> T {
    let low = one::<T>().over_spec(T::spec_count(1000000));
    if fraction.below_spec(low) {
        low
    } else if one::<T>().below_spec(fraction) {
        one::<T>()
    } else {
        fraction
    }
}

/// The number of hash bits for a fraction of rows: the logarithm of its inverse, rounded,
/// but at least one and at most sixteen.
pub open spec fn bits_for<T: Scalar>(fraction: T) -> nat {
    let bits = one::<T>().over_spec(clamped_fraction(fraction)).log2_spec().rounded_spec();
    if bits < 1 {
        1
    } else if bits > 16 {
        16
    } else {
        bits as nat
    }
}

impl<T: Scalar> LshSparseTrainer<T> {
    /// A trainer.
    pub fn new(config: LshSparseConfig<T>) -> (r: Self)
        ensures
            r.config == config,
            r.vel is None,
    {
        LshSparseTrainer { config, vel: None }
    }

    /// The number of hash bits, so that a bucket holds about the wanted fraction of rows.
    pub fn num_bits(&self) -> (r: usize)
        ensures
            r == bits_for(self.config.sparse_fraction),
            1 <= r <= 16,
    {
        let low = T::from_count(1).over(T::from_count(1000000));
        let fraction = self.config.sparse_fraction;
        let fraction = if fraction.below(low) {
            low
        } else if T::from_count(1).below(fraction) {
            T::from_count(1)
        } else {
            fraction
        };
        let bits: usize = T::from_count(1).over(fraction).log2().rounded();
        if bits < 1 {
            1
        } else if bits > 16 {
            16
        } else {
            bits
        }
    }
}

/// Whether `b` is the matrix `a`, masked by the activations.
pub open spec fn matrix_masked<T: Scalar>(
    a: Matrix<T>,
    b: Matrix<T>,
    activations: Seq<T>,
    seq: int,
    in_dim: int,
    planes: Seq<Seq<T>>,
) -> bool {
    &&& b.rows == a.rows && b.cols == a.cols
    &&& b.data@ == masked(a.data@, activations, seq, in_dim, planes)
}

/// Whether the four matrices of layer `l` are masked by the inputs that they got.
pub open spec fn layer_masked<T: Scalar>(
    g: ToyLmGrads<T>,
    m: ToyLmGrads<T>,
    cache: ForwardCache<T>,
    c: Config,
    planes: Seq<Seq<T>>,
    ff_planes: Seq<Seq<T>>,
    l: int,
) -> bool {
    let lc = cache.layers@[l];
    let n = cache.tokens@.len() as int;
    let d = c.dim as int;
    let f = c.ff_dim as int;
    &&& matrix_masked(g.qkv@[l], m.qkv@[l], lc.ln1_out@, n, d, planes)
    &&& matrix_masked(g.attn_out@[l], m.attn_out@[l], lc.attn_out@, n, d, planes)
    &&& matrix_masked(g.ff_up@[l], m.ff_up@[l], lc.ln2_out@, n, d, planes)
    &&& matrix_masked(g.ff_down@[l], m.ff_down@[l], lc.ff_up_act@, n, f, ff_planes)
}

/// Whether the matrices of the first `n` layers are masked and all else is as it was.
pub open spec fn layers_masked<T: Scalar>(
    g: ToyLmGrads<T>,
    m: ToyLmGrads<T>,
    cache: ForwardCache<T>,
    c: Config,
    planes: Seq<Seq<T>>,
    ff_planes: Seq<Seq<T>>,
    n: int,
) -> bool {
    &&& m.token_embed == g.token_embed
    &&& m.ln1_gain == g.ln1_gain
    &&& m.ln2_gain == g.ln2_gain
    &&& m.ln_f_gain == g.ln_f_gain
    &&& m.qkv@.len() == g.qkv@.len()
    &&& m.attn_out@.len() == g.attn_out@.len()
    &&& m.ff_up@.len() == g.ff_up@.len()
    &&& m.ff_down@.len() == g.ff_down@.len()
    &&& forall|l: int|
        0 <= l < n ==> #[trigger] layer_masked(g, m, cache, c, planes, ff_planes, l)
    &&& forall|l: int| n <= l < g.qkv@.len() ==> #[trigger] m.qkv@[l] == g.qkv@[l]
    &&& forall|l: int| n <= l < g.attn_out@.len() ==> #[trigger] m.attn_out@[l] == g.attn_out@[l]
    &&& forall|l: int| n <= l < g.ff_up@.len() ==> #[trigger] m.ff_up@[l] == g.ff_up@[l]
    &&& forall|l: int| n <= l < g.ff_down@.len() ==> #[trigger] m.ff_down@[l] == g.ff_down@[l]
}

/// Masks the gradients of every layer by the inputs that its matrices got.
pub fn mask_grads<T: Scalar>(
    grads: &mut ToyLmGrads<T>,
    cache: &ForwardCache<T>,
    c: &Config,
    lsh_dim: &LshIndex<T>,
    lsh_ff: &LshIndex<T>,
)
    requires
        grads_fit(*old(grads), *c),
        cache_shaped(*cache, *c),
        c.num_layers > 0 ==> c.dim > 0 && c.ff_dim > 0,
        lsh_dim.wf() && pow2(lsh_dim.num_bits as nat) <= usize::MAX,
        lsh_ff.wf() && pow2(lsh_ff.num_bits as nat) <= usize::MAX,
    ensures
        layers_masked(
            *old(grads),
            *final(grads),
            *cache,
            *c,
            lsh_dim.planes(),
            lsh_ff.planes(),
            c.num_layers as int,
        ),
        grads_fit(*final(grads), *c),
{
    let ghost g0 = *grads;
    let seq: usize = cache.tokens.len();
    let d: usize = c.dim;
    let f: usize = c.ff_dim;
    let n: usize = c.num_layers;
    for l in 0..n
        invariant
            n == c.num_layers,
            d == c.dim,
            f == c.ff_dim,
            seq == cache.tokens@.len(),
            grads_fit(g0, *c),
            cache_shaped(*cache, *c),
            c.num_layers > 0 ==> c.dim > 0 && c.ff_dim > 0,
            lsh_dim.wf() && pow2(lsh_dim.num_bits as nat) <= usize::MAX,
            lsh_ff.wf() && pow2(lsh_ff.num_bits as nat) <= usize::MAX,
            layers_masked(
                g0,
                *grads,
                *cache,
                *c,
                lsh_dim.planes(),
                lsh_ff.planes(),
                l as int,
            ),
    {
        let lc = &cache.layers[l];
        let ghost before = *grads;
        assert(layer_shaped(cache.layers@[l as int], *c, seq as nat));
        mask_by_lsh(&mut grads.qkv[l].data, &lc.ln1_out, seq, d, lsh_dim);
        mask_by_lsh(&mut grads.attn_out[l].data, &lc.attn_out, seq, d, lsh_dim);
        mask_by_lsh(&mut grads.ff_up[l].data, &lc.ln2_out, seq, d, lsh_dim);
        mask_by_lsh(&mut grads.ff_down[l].data, &lc.ff_up_act, seq, f, lsh_ff);
        proof {
            let p = lsh_dim.planes();
            let q = lsh_ff.planes();
            assert forall|k: int| 0 <= k < l + 1 implies #[trigger] layer_masked(
                g0,
                *grads,
                *cache,
                *c,
                p,
                q,
                k,
            ) by {
                if k < l {
                    assert(layer_masked(g0, before, *cache, *c, p, q, k));
                    assert(grads.qkv@[k] == before.qkv@[k]);
                    assert(grads.attn_out@[k] == before.attn_out@[k]);
                    assert(grads.ff_up@[k] == before.ff_up@[k]);
                    assert(grads.ff_down@[k] == before.ff_down@[k]);
                } else {
                    assert(before.qkv@[k] == g0.qkv@[k]);
                    assert(before.attn_out@[k] == g0.attn_out@[k]);
                    assert(before.ff_up@[k] == g0.ff_up@[k]);
                    assert(before.ff_down@[k] == g0.ff_down@[k]);
                }
            }
        }
    }
    proof {
        let p = lsh_dim.planes();
        let q = lsh_ff.planes();
        assert forall|l: int| 0 <= l < n implies has_shape(#[trigger] grads.qkv@[l], 3 * d, d as int) by {
            assert(layer_masked(g0, *grads, *cache, *c, p, q, l));
            assert(has_shape(g0.qkv@[l], 3 * d, d as int));
        }
        assert forall|l: int| 0 <= l < n implies has_shape(
            #[trigger] grads.attn_out@[l],
            d as int,
            d as int,
        ) by {
            assert(layer_masked(g0, *grads, *cache, *c, p, q, l));
            assert(has_shape(g0.attn_out@[l], d as int, d as int));
        }
        assert forall|l: int| 0 <= l < n implies has_shape(
            #[trigger] grads.ff_up@[l],
            f as int,
            d as int,
        ) by {
            assert(layer_masked(g0, *grads, *cache, *c, p, q, l));
            assert(has_shape(g0.ff_up@[l], f as int, d as int));
        }
        assert forall|l: int| 0 <= l < n implies has_shape(
            #[trigger] grads.ff_down@[l],
            d as int,
            f as int,
        ) by {
            assert(layer_masked(g0, *grads, *cache, *c, p, q, l));
            assert(has_shape(g0.ff_down@[l], d as int, f as int));
        }
    }
}

/// Whether a model took a step against the masked gradients of the mean loss over a window.
pub open spec fn descended_sparse<T: Scalar>(
    m0: ToyLm<T>,
    v0: ToyLmGrads<T>,
    m1: ToyLm<T>,
    v1: ToyLmGrads<T>,
    tokens: Seq<u32>,
    targets: Seq<u32>,
    lr: T,
    cfg: LshSparseConfig<T>,
) -> bool {
    let bits = bits_for(cfg.sparse_fraction);
    let c = m0.config;
    exists|cache: ForwardCache<T>, g: ToyLmGrads<T>, m: ToyLmGrads<T>|
        cached(cache, m0) && cache.tokens@ == tokens && #[trigger] grads_are(g, m0, cache, targets)
            && #[trigger] layers_masked(
            g,
            m,
            cache,
            c,
            planes_spec(c.dim as nat, bits, cfg.seed),
            planes_spec(c.ff_dim as nat, bits, next_seed(cfg.seed)),
            c.num_layers as int,
        ) && took_step(m0, v0, m, m1, v1, lr, cfg.momentum, cfg.max_grad_norm)
}

/// The seed behind a seed; behind the largest comes zero.
pub open spec fn next_seed(seed: u64) -> u64 {
    if seed == u64::MAX {
        0
    } else {
        (seed + 1) as u64
    }
}

/// Whether step `k` of a sparse training was taken.
pub open spec fn lsh_step_at<T: Scalar>(
    cfg: LshSparseConfig<T>,
    ids: Seq<u32>,
    models: Seq<ToyLm<T>>,
    vels: Seq<ToyLmGrads<T>>,
    k: int,
) -> bool {
    let seq = cfg.seq_len as int;
    let windows = num_windows(ids.len() as int, seq);
    let start = k % windows;
    descended_sparse(
        models[k],
        vels[k],
        models[k + 1],
        vels[k + 1],
        window(ids, start, seq),
        window(ids, start + 1, seq),
        lr_at(cfg.learning_rate, cfg.lr_decay, (k / windows) as nat),
        cfg,
    )
}

/// Whether the models and velocities are those of the first `n` steps.
pub open spec fn lsh_run<T: Scalar>(
    cfg: LshSparseConfig<T>,
    ids: Seq<u32>,
    models: Seq<ToyLm<T>>,
    vels: Seq<ToyLmGrads<T>>,
    n: int,
) -> bool {
    &&& models.len() == n + 1
    &&& vels.len() == n + 1
    &&& forall|k: int| 0 <= k < n ==> #[trigger] lsh_step_at(cfg, ids, models, vels, k)
}

/// Takes one step against the masked gradients of the mean loss over a window.
fn descend_sparse<T: Scalar>(
    model: &mut ToyLm<T>,
    vel: &mut ToyLmGrads<T>,
    tokens: &[u32],
    targets: &[u32],
    lr: T,
    cfg: &LshSparseConfig<T>,
    lsh_dim: &LshIndex<T>,
    lsh_ff: &LshIndex<T>,
)
    requires
        old(model).wf(),
        sizes_fit(old(model).config),
        can_run(old(model).config, tokens@.len()),
        tokens@.len() * old(model).config.num_heads <= usize::MAX,
        grads_fit(*old(vel), old(model).config),
        targets@.len() == tokens@.len(),
        forall|t: int|
            0 <= t < targets@.len() ==> (#[trigger] targets@[t]) < old(model).config.vocab_size,
        lsh_dim.wf() && pow2(lsh_dim.num_bits as nat) <= usize::MAX,
        lsh_ff.wf() && pow2(lsh_ff.num_bits as nat) <= usize::MAX,
        lsh_dim.planes() == planes_spec::<T>(
            old(model).config.dim as nat,
            bits_for(cfg.sparse_fraction),
            cfg.seed,
        ),
        lsh_ff.planes() == planes_spec::<T>(
            old(model).config.ff_dim as nat,
            bits_for(cfg.sparse_fraction),
            next_seed(cfg.seed),
        ),
    ensures
        descended_sparse(
            *old(model),
            *old(vel),
            *final(model),
            *final(vel),
            tokens@,
            targets@,
            lr,
            *cfg,
        ),
        final(model).wf(),
        final(model).config == old(model).config,
        grads_fit(*final(vel), final(model).config),
{
    let ghost m0 = *model;
    let (cache, _logits) = forward_cached(model, tokens);
    proof {
        law_cached_is_shaped(cache, m0);
    }
    let (_loss, mut grads) = backward(model, &cache, targets);
    let ghost g = grads;
    mask_grads(&mut grads, &cache, &model.config, lsh_dim, lsh_ff);
    apply_step(model, &grads, vel, lr, cfg.momentum, cfg.max_grad_norm);
    proof {
        assert(grads_are(g, m0, cache, targets@));
    }
}

impl<T: Scalar> Trainer<T> for LshSparseTrainer<T> {
    open spec fn algorithm(&self) -> Seq<char> {
        "lsh-sparse"@
    }

    open spec fn can_train(&self, model: ToyLm<T>, corpus: Seq<u8>) -> bool {
        let seq = self.config.seq_len as int;
        too_small(corpus.len() as int, seq) || {
            &&& model.wf()
            &&& sizes_fit(model.config)
            &&& self.config.epochs > 0 ==> trainable(model, corpus, seq)
            &&& 64 * model.config.dim <= usize::MAX
            &&& 64 * model.config.ff_dim <= usize::MAX
            &&& self.vel matches Some(v) ==> grads_fit(v, model.config)
        }
    }

    open spec fn trains(
        before: Self,
        model: ToyLm<T>,
        corpus: Seq<u8>,
        after: Self,
        trained: ToyLm<T>,
        result: NseResult<()>,
    ) -> bool {
        let cfg = before.config;
        let seq = cfg.seq_len as int;
        let n = corpus.len() as int;
        let ids = corpus_tokens(corpus);
        let steps = cfg.epochs * num_windows(n, seq);
        if too_small(n, seq) {
            refused_as_small(result, n, seq) && after == before && trained == model
        } else {
            &&& result is Ok
            &&& after.config == cfg
            &&& after.vel is Some
            &&& trained.wf() && trained.config == model.config
            &&& grads_fit(after.vel->Some_0, model.config)
            &&& exists|models: Seq<ToyLm<T>>, vels: Seq<ToyLmGrads<T>>| #[trigger]
                lsh_run(cfg, ids, models, vels, steps) && models[0] == model && starts_with(
                    before.vel,
                    model.config,
                    vels[0],
                ) && models[steps] == trained && vels[steps] == after.vel->Some_0
        }
    }

    fn name(&self) -> (r: &'static str) {
        "lsh-sparse"
    }

    fn train(&mut self, model: &mut ToyLm<T>, corpus: &[u8]) -> (r: NseResult<()>) {
        let cfg = self.config;
        let seq: usize = cfg.seq_len;
        let epochs: usize = cfg.epochs;
        let ids = tokenize(corpus);
        let n: usize = ids.len();
        if n < 2 || n - 2 < seq {
            return Err(too_small_error(n, seq));
        }
        let ghost t0 = *self;
        let ghost m0 = *model;
        let bits: usize = self.num_bits();
        proof {
            lemma2_to64();
            if bits < 16 {
                lemma_pow2_strictly_increases(bits as nat, 16);
            }
            let d = model.config.dim as int;
            let f = model.config.ff_dim as int;
            assert(bits * d * 4 <= 64 * d) by (nonlinear_arith)
                requires
                    bits <= 16,
                    0 <= d,
            ;
            assert(bits * f * 4 <= 64 * f) by (nonlinear_arith)
                requires
                    bits <= 16,
                    0 <= f,
            ;
        }
        let lsh_dim: LshIndex<T> = LshIndex::new(model.config.dim, bits, cfg.seed);
        let second: u64 = if cfg.seed == u64::MAX {
            0
        } else {
            cfg.seed + 1
        };
        let lsh_ff: LshIndex<T> = LshIndex::new(model.config.ff_dim, bits, second);
        let mut lr = cfg.learning_rate;
        let windows: usize = n - seq - 1;
        let mut vel = take_velocities(&mut self.vel, &model.config);
        let ghost mut models: Seq<ToyLm<T>> = seq![*model];
        let ghost mut vels: Seq<ToyLmGrads<T>> = seq![vel];
        assert(0 * windows == 0) by (nonlinear_arith);
        for epoch in 0..epochs
            invariant
                ids@ == corpus_tokens(corpus@),
                n == ids@.len(),
                cfg == t0.config,
                seq == cfg.seq_len,
                windows == num_windows(n as int, seq as int),
                windows > 0,
                epochs > 0 ==> trainable(m0, corpus@, seq as int),
                lsh_dim.wf() && pow2(lsh_dim.num_bits as nat) <= usize::MAX,
                lsh_ff.wf() && pow2(lsh_ff.num_bits as nat) <= usize::MAX,
                lsh_dim.planes() == planes_spec::<T>(
                    m0.config.dim as nat,
                    bits_for(cfg.sparse_fraction),
                    cfg.seed,
                ),
                lsh_ff.planes() == planes_spec::<T>(
                    m0.config.ff_dim as nat,
                    bits_for(cfg.sparse_fraction),
                    next_seed(cfg.seed),
                ),
                model.wf(),
                model.config == m0.config,
                grads_fit(vel, m0.config),
                lr == lr_at(cfg.learning_rate, cfg.lr_decay, epoch as nat),
                lsh_run(cfg, ids@, models, vels, epoch * windows),
                models[0] == m0,
                starts_with(t0.vel, m0.config, vels[0]),
                models[epoch * windows] == *model,
                vels[epoch * windows] == vel,
        {
            proof {
                lemma_step_count(epoch as int, 0, windows as int);
            }
            for start in 0..windows
                invariant
                    ids@ == corpus_tokens(corpus@),
                    n == ids@.len(),
                    cfg == t0.config,
                    seq == cfg.seq_len,
                    windows == num_windows(n as int, seq as int),
                    windows > 0,
                    trainable(m0, corpus@, seq as int),
                    lsh_dim.wf() && pow2(lsh_dim.num_bits as nat) <= usize::MAX,
                    lsh_ff.wf() && pow2(lsh_ff.num_bits as nat) <= usize::MAX,
                    lsh_dim.planes() == planes_spec::<T>(
                        m0.config.dim as nat,
                        bits_for(cfg.sparse_fraction),
                        cfg.seed,
                    ),
                    lsh_ff.planes() == planes_spec::<T>(
                        m0.config.ff_dim as nat,
                        bits_for(cfg.sparse_fraction),
                        next_seed(cfg.seed),
                    ),
                    model.wf(),
                    model.config == m0.config,
                    grads_fit(vel, m0.config),
                    lr == lr_at(cfg.learning_rate, cfg.lr_decay, epoch as nat),
                    0 <= epoch * windows,
                    lsh_run(cfg, ids@, models, vels, epoch * windows + start),
                    models[0] == m0,
                    starts_with(t0.vel, m0.config, vels[0]),
                    models[epoch * windows + start] == *model,
                    vels[epoch * windows + start] == vel,
            {
                let tokens = copy_range(&ids, start, start + seq);
                let targets = copy_range(&ids, start + 1, start + 1 + seq);
                proof {
                    assert forall|t: int| 0 <= t < targets@.len() implies (#[trigger] targets@[t])
                        < model.config.vocab_size by {
                        assert(targets@[t] == ids@[start + 1 + t]);
                    }
                }
                let ghost ma = *model;
                let ghost va = vel;
                descend_sparse(model, &mut vel, &tokens, &targets, lr, &cfg, &lsh_dim, &lsh_ff);
                proof {
                    let k = epoch * windows + start;
                    let before = models;
                    let before_v = vels;
                    models = models.push(*model);
                    vels = vels.push(vel);
                    lemma_step_count(epoch as int, start as int, windows as int);
                    assert forall|j: int| 0 <= j < k + 1 implies #[trigger] lsh_step_at(
                        cfg,
                        ids@,
                        models,
                        vels,
                        j,
                    ) by {
                        if j < k {
                            assert(lsh_step_at(cfg, ids@, before, before_v, j));
                            assert(models[j] == before[j] && models[j + 1] == before[j + 1]);
                            assert(vels[j] == before_v[j] && vels[j + 1] == before_v[j + 1]);
                        } else {
                            assert(models[k] == ma && vels[k] == va);
                        }
                    }
                }
            }
            lr = lr.times(cfg.lr_decay);
            proof {
                lemma_step_count(epoch as int, 0, windows as int);
            }
        }
        self.vel = Some(vel);
        proof {
            assert(lsh_run(cfg, ids@, models, vels, epochs * windows));
        }
        Ok(())
    }
}

} // verus!
