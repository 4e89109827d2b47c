//! Forward-forward training: each layer is trained on its own to have a high energy on
//! windows of the corpus and a low one on windows in another order; the output head is
//! moved towards what precedes its tokens.

use vstd::prelude::*;
use rand::rngs::StdRng;
use crate::autograd::{
    add_embedding_grads, block_backward_local, cache_shaped, cached, embed_grad_upto,
    forward_cached, grads_fit, law_cached_is_shaped, layer_added, layer_grads_are, layer_shaped,
    scale_all, scaled_all, ForwardCache, LayerCache, LayerGrads, ToyLmGrads,
};
use crate::config::Config;
use crate::error::NseResult;
use crate::generator::{generator_state, seeded, seeded_state};
use crate::options::Homeostasis;
use crate::permute::{is_negative_of, permute_window, permuted};
use crate::scalar::{dot, dot_spec, Scalar};
use crate::sgd::{starts_with, take_velocities};
use crate::sgd_apply::{apply_step, clip_scale, took_step, velocity};
use crate::tensor::{copy_range, lemma_row_index, row_of, Matrix};
use crate::tokenizer::corpus_tokens;
use crate::toy_lm::{all_zero, can_run, has_shape, have_shape, sizes_fit, ToyLm, ToyLmWeights};
use crate::trainer::{
    lemma_step_count, lr_at, num_windows, refused_as_small, runnable, tokenize, too_small,
    too_small_error, window, Trainer,
};
use crate::transformer::{add_all, added, holds_rows, lemma_rows_held, one, rows_of, two};

verus! {

/// The settings of forward-forward training.
#[derive(Debug, Clone, Copy)]
pub struct ForwardForwardConfig<T> {
    pub learning_rate: T,
    /// The length of the windows.
    pub seq_len: usize,
    pub epochs: usize,
    /// What the learning rates are multiplied by after each epoch.
    pub lr_decay: T,
    pub momentum: T,
    /// The largest norm of all gradients together.
    pub max_grad_norm: T,
    /// The learning rate of the output head; zero leaves it alone.
    pub hebbian_embed_lr: T,
    /// How much of the old threshold stays in each step.
    pub theta_ema: T,
    /// The largest magnitude of a weight; zero for no limit.
    pub weight_clip: T,
    /// How the goodness of a layer is normalised.
    pub homeostasis: Homeostasis,
    /// How often callers report progress; zero for silence.
    pub log_every: usize,
    /// The seed of the generator that permutes windows.
    pub seed: u64,
}

/// Whether the settings are the default ones.
pub open spec fn is_default<T: Scalar>(r: ForwardForwardConfig<T>) -> bool {
    &&& r.learning_rate == one::<T>().over_spec(T::spec_count(50))
    &&& r.seq_len == 16
    &&& r.epochs == 60
    &&& r.lr_decay == one::<T>()
    &&& r.momentum == T::spec_count(9).over_spec(T::spec_count(10))
    &&& r.max_grad_norm == one::<T>()
    &&& r.hebbian_embed_lr == one::<T>().over_spec(T::spec_count(100))
    &&& r.theta_ema == T::spec_count(99).over_spec(T::spec_count(100))
    &&& r.weight_clip == one::<T>()
    &&& r.homeostasis == Homeostasis::Raw
    &&& r.log_every == 0
    &&& r.seed == 5
}

impl<T: Scalar> Default for ForwardForwardConfig<T> {
    fn default() -> (r: Self)
        ensures
            is_default(r),
    {
        ForwardForwardConfig {
            learning_rate: T::from_count(1).over(T::from_count(50)),
            seq_len: 16,
            epochs: 60,
            lr_decay: T::from_count(1),
            momentum: T::from_count(9).over(T::from_count(10)),
            max_grad_norm: T::from_count(1),
            hebbian_embed_lr: T::from_count(1).over(T::from_count(100)),
            theta_ema: T::from_count(99).over(T::from_count(100)),
            weight_clip: T::from_count(1),
            homeostasis: Homeostasis::Raw,
            log_every: 0,
            seed: 5,
        }
    }
}

/// The running statistics of each layer's goodness.
#[derive(Debug, Clone)]
pub struct Thresholds<T> {
    /// Per layer the threshold between high and low goodness.
    pub theta: Vec<T>,
    /// Per layer the running mean.
    pub g_mean: Vec<T>,
    /// Per layer the running variance.
    pub g_var: Vec<T>,
}

/// The running statistics of one layer's goodness.
pub struct LayerStat<T> {
    pub theta: T,
    pub mean: T,
    pub var: T,
}

impl<T: Scalar> Thresholds<T> {
    /// Whether there are statistics for `n` layers.
    pub open spec fn covers(&self, n: int) -> bool {
        n <= self.theta@.len() && n <= self.g_mean@.len() && n <= self.g_var@.len()
    }

    /// The statistics of layer `l`.
    pub open spec fn stat(&self, l: int) -> LayerStat<T> {
        LayerStat { theta: self.theta@[l], mean: self.g_mean@[l], var: self.g_var@[l] }
    }

    /// Whether the statistics of layer `l` are the same.
    pub open spec fn same_at(&self, other: Self, l: int) -> bool {
        &&& l < self.theta@.len() ==> self.theta@[l] == other.theta@[l]
        &&& l < self.g_mean@.len() ==> self.g_mean@[l] == other.g_mean@[l]
        &&& l < self.g_var@.len() ==> self.g_var@[l] == other.g_var@[l]
    }

    /// Whether there are as many statistics.
    pub open spec fn same_len(&self, other: Self) -> bool {
        &&& self.theta@.len() == other.theta@.len()
        &&& self.g_mean@.len() == other.g_mean@.len()
        &&& self.g_var@.len() == other.g_var@.len()
    }
}

/// The forward-forward trainer. The velocities and the statistics are kept from one
/// training to the next.
#[derive(Debug, Clone)]
pub struct ForwardForwardTrainer<T> {
    pub config: ForwardForwardConfig<T>,
    /// The velocities, once there are any.
    pub vel: Option<ToyLmGrads<T>>,
    /// The statistics, empty at first.
    pub stats: Thresholds<T>,
}

impl<T: Scalar> ForwardForwardTrainer<T> {
    /// A trainer.
    pub fn new(config: ForwardForwardConfig<T>) -> (r: Self)
        ensures
            r.config == config,
            r.vel is None,
            r.stats.theta@.len() == 0,
            r.stats.g_mean@.len() == 0,
            r.stats.g_var@.len() == 0,
    {
        ForwardForwardTrainer {
            config,
            vel: None,
            stats: Thresholds { theta: Vec::new(), g_mean: Vec::new(), g_var: Vec::new() },
        }
    }
}

impl<T: Scalar> Default for ForwardForwardTrainer<T> {
    fn default() -> (r: Self)
        ensures
            r.vel is None,
            r.stats.theta@.len() == 0,
            r.stats.g_mean@.len() == 0,
            r.stats.g_var@.len() == 0,
            is_default(r.config),
    {
        ForwardForwardTrainer::new(ForwardForwardConfig::default())
    }
}

/// The hidden state behind a layer.
pub open spec fn output_of<T: Scalar>(lc: LayerCache<T>) -> Seq<T> {
    added(lc.ln2_in@, lc.ff_down_out@)
}

/// The hidden state behind a layer.
pub fn layer_output<T: Scalar>(lc: &LayerCache<T>) -> (r: Vec<T>)
    requires
        lc.ln2_in@.len() == lc.ff_down_out@.len(),
    ensures
        r@ == output_of(*lc),
        r@.len() == lc.ln2_in@.len(),
{
    add_all(&lc.ln2_in, &lc.ff_down_out)
}

/// The mean square.
pub open spec fn goodness_spec<T: Scalar>(y: Seq<T>) -> T {
    if y.len() == 0 {
        T::spec_zero()
    } else {
        dot_spec(y, y).over_spec(T::spec_count(y.len() as usize))
    }
}

/// The mean square, zero if there are no numbers.
pub fn goodness<T: Scalar>(y: &[T]) -> (r: T)
    ensures
        r == goodness_spec(y@),
{
    if y.len() == 0 {
        return T::zero();
    }
    dot(y, y).over(T::from_count(y.len()))
}

/// The logistic function.
pub open spec fn sigmoid_spec<T: Scalar>(x: T) -> T {
    one::<T>().over_spec(one::<T>().plus_spec(x.negated_spec().exp_spec()))
}

/// The logistic function.
pub fn sigmoid<T: Scalar>(x: T) -> (r: T)
    ensures
        r == sigmoid_spec(x),
{
    T::from_count(1).over(T::from_count(1).plus(x.negated().exp()))
}

/// The deviation for a variance.
pub open spec fn spread_spec<T: Scalar>(var: T) -> T {
    let positive = if T::spec_zero().below_spec(var) {
        var
    } else {
        T::spec_zero()
    };
    positive.plus_spec(one::<T>().over_spec(T::spec_count(1000000))).root_spec()
}

/// The deviation for a variance, with a millionth added to it.
fn spread<T: Scalar>(var: T) -> (r: T)
    ensures
        r == spread_spec(var),
{
    let positive = if T::zero().below(var) {
        var
    } else {
        T::zero()
    };
    positive.plus(T::from_count(1).over(T::from_count(1000000))).root()
}

/// What the gradients of the goodness on the positive and on the negative window are
/// multiplied by.
pub open spec fn coeffs_spec<T: Scalar>(
    stat: LayerStat<T>,
    homeostasis: Homeostasis,
    pos: T,
    neg: T,
) -> (T, T) {
    match homeostasis {
        Homeostasis::Raw => (
            sigmoid_spec(stat.theta.minus_spec(pos)).negated_spec(),
            sigmoid_spec(neg.minus_spec(stat.theta)),
        ),
        Homeostasis::LayerNorm => {
            let s = spread_spec(stat.var);
            let p = pos.minus_spec(stat.mean).over_spec(s);
            let n = neg.minus_spec(stat.mean).over_spec(s);
            (
                sigmoid_spec(T::spec_zero().minus_spec(p)).negated_spec().over_spec(s),
                sigmoid_spec(n.minus_spec(T::spec_zero())).over_spec(s),
            )
        },
    }
}

/// The statistics of a layer after a step with the given goodness on the positive window.
pub open spec fn next_stat<T: Scalar>(
    stat: LayerStat<T>,
    homeostasis: Homeostasis,
    ema: T,
    pos: T,
) -> LayerStat<T> {
    let rest = one::<T>().minus_spec(ema);
    match homeostasis {
        Homeostasis::Raw => LayerStat {
            theta: ema.times_spec(stat.theta).plus_spec(rest.times_spec(pos)),
            mean: stat.mean,
            var: stat.var,
        },
        Homeostasis::LayerNorm => {
            let mean = ema.times_spec(stat.mean).plus_spec(rest.times_spec(pos));
            let delta = pos.minus_spec(stat.mean);
            LayerStat {
                theta: mean,
                mean,
                var: ema.times_spec(stat.var).plus_spec(
                    rest.times_spec(delta).times_spec(pos.minus_spec(mean)),
                ),
            }
        },
    }
}

/// The gradient of the mean square.
pub open spec fn goodness_grad<T: Scalar>(y: Seq<T>) -> Seq<T> {
    y.map_values(|v: T| two::<T>().times_spec(v).over_spec(T::spec_count(y.len() as usize)))
}

/// The gradient of the mean square, computed.
fn goodness_back<T: Scalar>(y: &[T]) -> (r: Vec<T>)
    ensures
        r@ == goodness_grad(y@),
{
    let n = T::from_count(y.len());
    let mut out: Vec<T> = Vec::with_capacity(y.len());
    for i in 0..y.len()
        invariant
            n == T::spec_count(y@.len() as usize),
            out@ == goodness_grad(y@).take(i as int),
    {
        out.push(T::from_count(2).times(y[i]).over(n));
        assert(out@ =~= goodness_grad(y@).take(i + 1));
    }
    assert(out@ =~= goodness_grad(y@));
    out
}

/// Two summands added to zeros in turn.
pub open spec fn sum_of_two<T: Scalar>(a: Seq<T>, b: Seq<T>) -> Seq<T> {
    added(added(Seq::new(a.len(), |i: int| T::spec_zero()), a), b)
}

/// Whether the gradients at layer `l` are the sums of those of two windows.
pub open spec fn layer_sums<T: Scalar>(
    g: ToyLmGrads<T>,
    l: int,
    a: LayerGrads<T>,
    b: LayerGrads<T>,
) -> bool {
    &&& g.qkv@[l].data@ == sum_of_two(a.qkv.data@, b.qkv.data@)
    &&& g.attn_out@[l].data@ == sum_of_two(a.attn_out.data@, b.attn_out.data@)
    &&& g.ff_up@[l].data@ == sum_of_two(a.ff_up.data@, b.ff_up.data@)
    &&& g.ff_down@[l].data@ == sum_of_two(a.ff_down.data@, b.ff_down.data@)
    &&& g.ln1_gain@[l]@ == sum_of_two(a.ln1_gain@, b.ln1_gain@)
    &&& g.ln2_gain@[l]@ == sum_of_two(a.ln2_gain@, b.ln2_gain@)
}

/// The gradient behind layer `l` that its goodness on a window gives, times a coefficient.
pub open spec fn local_dx<T: Scalar>(
    cache: ForwardCache<T>,
    c: Config,
    l: int,
    coeff: T,
) -> Seq<Seq<T>> {
    rows_of(
        scaled_all(goodness_grad(output_of(cache.layers@[l])), coeff),
        cache.tokens@.len(),
        c.dim as nat,
    )
}

/// The coefficients of layer `l` for a positive and a negative window.
pub open spec fn coeffs_at<T: Scalar>(
    pos: ForwardCache<T>,
    neg: ForwardCache<T>,
    stats: Thresholds<T>,
    homeostasis: Homeostasis,
    l: int,
) -> (T, T) {
    coeffs_spec(
        stats.stat(l),
        homeostasis,
        goodness_spec(output_of(pos.layers@[l])),
        goodness_spec(output_of(neg.layers@[l])),
    )
}

/// Whether `a` and `b` are the gradients of layer `l` on the two windows, and the gradients
/// at the layer are their sums.
pub open spec fn layer_parts<T: Scalar>(
    g: ToyLmGrads<T>,
    lm: ToyLm<T>,
    pos: ForwardCache<T>,
    neg: ForwardCache<T>,
    stats: Thresholds<T>,
    homeostasis: Homeostasis,
    l: int,
    a: LayerGrads<T>,
    b: LayerGrads<T>,
) -> bool {
    let (cp, cn) = coeffs_at(pos, neg, stats, homeostasis, l);
    let c = lm.config;
    &&& layer_grads_are(a, lm.weights, c, l, pos.layers@[l], local_dx(pos, c, l, cp))
    &&& layer_grads_are(b, lm.weights, c, l, neg.layers@[l], local_dx(neg, c, l, cn))
    &&& layer_sums(g, l, a, b)
}

/// Whether the gradients at layer `l` are those of its own objective.
pub open spec fn layer_local<T: Scalar>(
    g: ToyLmGrads<T>,
    lm: ToyLm<T>,
    pos: ForwardCache<T>,
    neg: ForwardCache<T>,
    stats: Thresholds<T>,
    homeostasis: Homeostasis,
    l: int,
) -> bool {
    exists|a: LayerGrads<T>, b: LayerGrads<T>| #[trigger]
        layer_parts(g, lm, pos, neg, stats, homeostasis, l, a, b)
}

/// Whether `g` holds the gradients of each layer's own objective, and nothing for the
/// embedding and the final gain.
pub open spec fn local_grads_are<T: Scalar>(
    g: ToyLmGrads<T>,
    lm: ToyLm<T>,
    pos: ForwardCache<T>,
    neg: ForwardCache<T>,
    stats: Thresholds<T>,
    homeostasis: Homeostasis,
) -> bool {
    &&& grads_fit(g, lm.config)
    &&& all_zero(g.token_embed.data@)
    &&& all_zero(g.ln_f_gain@)
    &&& forall|l: int|
        0 <= l < lm.config.num_layers ==> #[trigger] layer_local(
            g,
            lm,
            pos,
            neg,
            stats,
            homeostasis,
            l,
        )
}

/// Whether the statistics of the first `n` layers took a step and the others stayed.
pub open spec fn stats_moved<T: Scalar>(
    s0: Thresholds<T>,
    s1: Thresholds<T>,
    pos: ForwardCache<T>,
    homeostasis: Homeostasis,
    ema: T,
    n: int,
) -> bool {
    &&& s1.same_len(s0)
    &&& forall|l: int|
        0 <= l < n ==> #[trigger] s1.stat(l) == next_stat(
            s0.stat(l),
            homeostasis,
            ema,
            goodness_spec(output_of(pos.layers@[l])),
        )
    &&& forall|l: int| n <= l ==> #[trigger] s1.same_at(s0, l)
}

/// Whether the gradients at layer `l` are all zero.
pub open spec fn zero_layer<T: Scalar>(g: ToyLmGrads<T>, l: int) -> bool {
    &&& all_zero(g.qkv@[l].data@)
    &&& all_zero(g.attn_out@[l].data@)
    &&& all_zero(g.ff_up@[l].data@)
    &&& all_zero(g.ff_down@[l].data@)
    &&& all_zero(g.ln1_gain@[l]@)
    &&& all_zero(g.ln2_gain@[l]@)
}

proof fn lemma_sum_of_two<T: Scalar>(z: Seq<T>, a: Seq<T>, b: Seq<T>, m: Seq<T>, e: Seq<T>)
    requires
        all_zero(z),
        z.len() == a.len(),
        a.len() == b.len(),
        m == added(z, a),
        e == added(m, b),
    ensures
        e == sum_of_two(a, b),
{
    assert(z =~= Seq::new(a.len(), |i: int| T::spec_zero()));
}

proof fn lemma_layer_sums<T: Scalar>(
    g0: ToyLmGrads<T>,
    g1: ToyLmGrads<T>,
    g2: ToyLmGrads<T>,
    a: LayerGrads<T>,
    b: LayerGrads<T>,
    c: Config,
    l: int,
    lca: LayerCache<T>,
    lcb: LayerCache<T>,
    w: ToyLmWeights<T>,
    dxa: Seq<Seq<T>>,
    dxb: Seq<Seq<T>>,
)
    requires
        0 <= l < c.num_layers,
        grads_fit(g0, c),
        grads_fit(g1, c),
        grads_fit(g2, c),
        zero_layer(g0, l),
        layer_added(g0, g1, a, l),
        layer_added(g1, g2, b, l),
        layer_grads_are(a, w, c, l, lca, dxa),
        layer_grads_are(b, w, c, l, lcb, dxb),
    ensures
        layer_sums(g2, l, a, b),
{
    let d = c.dim as int;
    let f = c.ff_dim as int;
    assert(has_shape(g0.qkv@[l], 3 * d, d));
    assert(has_shape(g0.attn_out@[l], d, d));
    assert(has_shape(g0.ff_up@[l], f, d));
    assert(has_shape(g0.ff_down@[l], d, f));
    assert(g0.ln1_gain@[l]@.len() == d);
    assert(g0.ln2_gain@[l]@.len() == d);
    lemma_sum_of_two(g0.qkv@[l].data@, a.qkv.data@, b.qkv.data@, g1.qkv@[l].data@, g2.qkv@[l].data@);
    lemma_sum_of_two(
        g0.attn_out@[l].data@,
        a.attn_out.data@,
        b.attn_out.data@,
        g1.attn_out@[l].data@,
        g2.attn_out@[l].data@,
    );
    lemma_sum_of_two(
        g0.ff_up@[l].data@,
        a.ff_up.data@,
        b.ff_up.data@,
        g1.ff_up@[l].data@,
        g2.ff_up@[l].data@,
    );
    lemma_sum_of_two(
        g0.ff_down@[l].data@,
        a.ff_down.data@,
        b.ff_down.data@,
        g1.ff_down@[l].data@,
        g2.ff_down@[l].data@,
    );
    lemma_sum_of_two(
        g0.ln1_gain@[l]@,
        a.ln1_gain@,
        b.ln1_gain@,
        g1.ln1_gain@[l]@,
        g2.ln1_gain@[l]@,
    );
    lemma_sum_of_two(
        g0.ln2_gain@[l]@,
        a.ln2_gain@,
        b.ln2_gain@,
        g1.ln2_gain@[l]@,
        g2.ln2_gain@[l]@,
    );
}

/// What a positive and a negative goodness are weighed with.
fn coefficients<T: Scalar>(
    stats: &Thresholds<T>,
    l: usize,
    homeostasis: Homeostasis,
    pos: T,
    neg: T,
) -> (r: (T, T))
    requires
        stats.covers(l + 1),
    ensures
        r == coeffs_spec(stats.stat(l as int), homeostasis, pos, neg),
{
    match homeostasis {
        Homeostasis::Raw => (
            sigmoid(stats.theta[l].minus(pos)).negated(),
            sigmoid(neg.minus(stats.theta[l])),
        ),
        Homeostasis::LayerNorm => {
            let s = spread(stats.g_var[l]);
            let p = pos.minus(stats.g_mean[l]).over(s);
            let n = neg.minus(stats.g_mean[l]).over(s);
            (
                sigmoid(T::zero().minus(p)).negated().over(s),
                sigmoid(n.minus(T::zero())).over(s),
            )
        },
    }
}

/// Moves the statistics of layer `l`.
fn move_stat<T: Scalar>(
    stats: &mut Thresholds<T>,
    l: usize,
    homeostasis: Homeostasis,
    ema: T,
    pos: T,
)
    requires
        old(stats).covers(l + 1),
    ensures
        final(stats).same_len(*old(stats)),
        final(stats).stat(l as int) == next_stat(old(stats).stat(l as int), homeostasis, ema, pos),
        forall|k: int| k != l && 0 <= k ==> #[trigger] final(stats).same_at(*old(stats), k),
{
    let rest = T::from_count(1).minus(ema);
    match homeostasis {
        Homeostasis::Raw => {
            let theta = ema.times(stats.theta[l]).plus(rest.times(pos));
            stats.theta[l] = theta;
        },
        Homeostasis::LayerNorm => {
            let old_mean = stats.g_mean[l];
            let mean = ema.times(old_mean).plus(rest.times(pos));
            let delta = pos.minus(old_mean);
            let var = ema.times(stats.g_var[l]).plus(
                rest.times(delta).times(pos.minus(mean)),
            );
            stats.g_mean[l] = mean;
            stats.g_var[l] = var;
            stats.theta[l] = mean;
        },
    }
}

/// The gradients of each layer's own objective on a positive and a negative window. Also
/// moves the statistics.
pub fn local_gradients<T: Scalar>(
    lm: &ToyLm<T>,
    pos: &ForwardCache<T>,
    neg: &ForwardCache<T>,
    stats: &mut Thresholds<T>,
    homeostasis: Homeostasis,
    ema: T,
) -> (g: ToyLmGrads<T>)
    requires
        lm.wf(),
        sizes_fit(lm.config),
        lm.config.num_layers > 0 ==> lm.config.num_heads > 0,
        cache_shaped(*pos, lm.config),
        cache_shaped(*neg, lm.config),
        pos.tokens@.len() * lm.config.num_heads <= usize::MAX,
        neg.tokens@.len() * lm.config.num_heads <= usize::MAX,
        old(stats).covers(lm.config.num_layers as int),
    ensures
        local_grads_are(g, *lm, *pos, *neg, *old(stats), homeostasis),
        stats_moved(
            *old(stats),
            *final(stats),
            *pos,
            homeostasis,
            ema,
            lm.config.num_layers as int,
        ),
{
    let c = &lm.config;
    let n: usize = c.num_layers;
    let mut g: ToyLmGrads<T> = ToyLmGrads::zeros(c);
    let ghost s0 = *stats;
    assert forall|k: int| 0 <= k < n implies #[trigger] zero_layer(g, k) by {
        assert(all_zero(g.qkv@[k].data@));
        assert(all_zero(g.attn_out@[k].data@));
        assert(all_zero(g.ff_up@[k].data@));
        assert(all_zero(g.ff_down@[k].data@));
        assert(all_zero(g.ln1_gain@[k]@));
        assert(all_zero(g.ln2_gain@[k]@));
    }
    for l in 0..n
        invariant
            n == c.num_layers,
            *c == lm.config,
            lm.wf(),
            sizes_fit(lm.config),
            lm.config.num_layers > 0 ==> lm.config.num_heads > 0,
            cache_shaped(*pos, lm.config),
            cache_shaped(*neg, lm.config),
            pos.tokens@.len() * lm.config.num_heads <= usize::MAX,
            neg.tokens@.len() * lm.config.num_heads <= usize::MAX,
            s0.covers(n as int),
            stats_moved(s0, *stats, *pos, homeostasis, ema, l as int),
            grads_fit(g, lm.config),
            all_zero(g.token_embed.data@),
            all_zero(g.ln_f_gain@),
            forall|k: int| l <= k < n ==> #[trigger] zero_layer(g, k),
            forall|k: int|
                0 <= k < l ==> #[trigger] layer_local(g, *lm, *pos, *neg, s0, homeostasis, k),
    {
        proof {
            assert(layer_shaped(pos.layers@[l as int], *c, pos.tokens@.len()));
            assert(layer_shaped(neg.layers@[l as int], *c, neg.tokens@.len()));
            assert(stats.same_at(s0, l as int));
        }
        let y_pos = layer_output(&pos.layers[l]);
        let y_neg = layer_output(&neg.layers[l]);
        let g_pos = goodness(&y_pos);
        let g_neg = goodness(&y_neg);
        let (c_pos, c_neg) = coefficients(stats, l, homeostasis, g_pos, g_neg);
        let dy_pos = goodness_back(&y_pos);
        let dy_neg = goodness_back(&y_neg);
        let ghost ga = g;
        block_backward_local(lm, pos, l, &dy_pos, c_pos, &mut g);
        let ghost gb = g;
        block_backward_local(lm, neg, l, &dy_neg, c_neg, &mut g);
        let ghost before = *stats;
        move_stat(stats, l, homeostasis, ema, g_pos);
        proof {
            let li = l as int;
            let dxa = local_dx(*pos, *c, li, c_pos);
            let dxb = local_dx(*neg, *c, li, c_neg);
            let a = choose|a: LayerGrads<T>| #[trigger]
                layer_grads_are(a, lm.weights, *c, li, pos.layers@[li], dxa) && layer_added(
                    ga,
                    gb,
                    a,
                    li,
                );
            let b = choose|b: LayerGrads<T>| #[trigger]
                layer_grads_are(b, lm.weights, *c, li, neg.layers@[li], dxb) && layer_added(
                    gb,
                    g,
                    b,
                    li,
                );
            assert(zero_layer(ga, li));
            lemma_layer_sums(
                ga,
                gb,
                g,
                a,
                b,
                *c,
                li,
                pos.layers@[li],
                neg.layers@[li],
                lm.weights,
                dxa,
                dxb,
            );
            assert(layer_parts(g, *lm, *pos, *neg, s0, homeostasis, li, a, b));
            assert forall|k: int| 0 <= k < l + 1 implies #[trigger] layer_local(
                g,
                *lm,
                *pos,
                *neg,
                s0,
                homeostasis,
                k,
            ) by {
                if k < l {
                    assert(layer_local(ga, *lm, *pos, *neg, s0, homeostasis, k));
                    let (u, v) = choose|u: LayerGrads<T>, v: LayerGrads<T>| #[trigger]
                        layer_parts(ga, *lm, *pos, *neg, s0, homeostasis, k, u, v);
                    assert(layer_parts(g, *lm, *pos, *neg, s0, homeostasis, k, u, v));
                }
            }
            assert forall|k: int| l + 1 <= k < n implies #[trigger] zero_layer(g, k) by {
                assert(zero_layer(ga, k));
            }
            assert forall|k: int| 0 <= k < l + 1 implies #[trigger] stats.stat(k) == next_stat(
                s0.stat(k),
                homeostasis,
                ema,
                goodness_spec(output_of(pos.layers@[k])),
            ) by {
                if k < l {
                    assert(before.stat(k) == next_stat(
                        s0.stat(k),
                        homeostasis,
                        ema,
                        goodness_spec(output_of(pos.layers@[k])),
                    ));
                    assert(stats.same_at(before, k));
                } else {
                    assert(before.same_at(s0, k));
                }
            }
            assert forall|k: int| l + 1 <= k implies #[trigger] stats.same_at(s0, k) by {
                assert(before.same_at(s0, k));
                assert(stats.same_at(before, k));
            }
        }
    }
    g
}

/// A weight, held between `-limit` and `limit`.
pub open spec fn clamped<T: Scalar>(w: T, limit: T) -> T {
    if w.below_spec(limit.negated_spec()) {
        limit.negated_spec()
    } else if limit.below_spec(w) {
        limit
    } else {
        w
    }
}

/// Weights, held between `-limit` and `limit`.
pub open spec fn clamped_all<T: Scalar>(w: Seq<T>, limit: T) -> Seq<T> {
    w.map_values(|v: T| clamped(v, limit))
}

/// Holds weights between `-limit` and `limit`.
fn clamp_all<T: Scalar>(w: &mut Vec<T>, limit: T)
    ensures
        final(w)@ == clamped_all(old(w)@, limit),
{
    let ghost w0 = w@;
    let low = limit.negated();
    let n: usize = w.len();
    for i in 0..n
        invariant
            n == w0.len(),
            low == limit.negated_spec(),
            w@.len() == w0.len(),
            forall|j: int| 0 <= j < i ==> w@[j] == clamped(w0[j], limit),
            forall|j: int| i <= j < w0.len() ==> w@[j] == w0[j],
    {
        let v = w[i];
        if v.below(low) {
            w[i] = low;
        } else if limit.below(v) {
            w[i] = limit;
        }
    }
    assert(w@ =~= clamped_all(w0, limit));
}

/// A weight that is held within a limit lies within it: it is neither below `-limit` nor
/// above `limit`.
pub proof fn law_clamped_within<T: Scalar>(w: T, limit: T)
    requires
        !limit.below_spec(limit.negated_spec()),
    ensures
        !clamped(w, limit).below_spec(limit.negated_spec()),
        !limit.below_spec(clamped(w, limit)),
{
    limit.below_irreflexive();
    limit.negated_spec().below_irreflexive();
}

/// Whether `b` is the matrix `a`, held within the limit.
pub open spec fn matrix_clamped<T: Scalar>(a: Matrix<T>, b: Matrix<T>, limit: T) -> bool {
    b.rows == a.rows && b.cols == a.cols && b.data@ == clamped_all(a.data@, limit)
}

/// Whether the first `n` matrices of `b` are those of `a`, held within the limit, and the
/// others are the same.
pub open spec fn matrices_clamped<T: Scalar>(
    a: Seq<Matrix<T>>,
    b: Seq<Matrix<T>>,
    limit: T,
    n: int,
) -> bool {
    &&& b.len() == a.len()
    &&& forall|l: int| 0 <= l < n ==> matrix_clamped(a[l], #[trigger] b[l], limit)
    &&& forall|l: int| n <= l < a.len() ==> #[trigger] b[l] == a[l]
}

/// Whether the matrices of `b` are those of `a`, held within the limit in the embedding and
/// in the first `n` layers. The gains are the same.
pub open spec fn weights_clamped<T: Scalar>(
    a: ToyLmWeights<T>,
    b: ToyLmWeights<T>,
    limit: T,
    n: int,
) -> bool {
    &&& matrix_clamped(a.token_embed, b.token_embed, limit)
    &&& matrices_clamped(a.qkv@, b.qkv@, limit, n)
    &&& matrices_clamped(a.attn_out@, b.attn_out@, limit, n)
    &&& matrices_clamped(a.ff_up@, b.ff_up@, limit, n)
    &&& matrices_clamped(a.ff_down@, b.ff_down@, limit, n)
    &&& b.ln1_gain == a.ln1_gain
    &&& b.ln2_gain == a.ln2_gain
    &&& b.ln_f_gain == a.ln_f_gain
}

/// Holds the matrices of a model within the limit.
pub fn clamp_weights<T: Scalar>(model: &mut ToyLm<T>, limit: T)
    requires
        old(model).wf(),
    ensures
        final(model).config == old(model).config,
        weights_clamped(
            old(model).weights,
            final(model).weights,
            limit,
            old(model).config.num_layers as int,
        ),
        final(model).wf(),
{
    let ghost m0 = *model;
    let n: usize = model.config.num_layers;
    clamp_all(&mut model.weights.token_embed.data, limit);
    for l in 0..n
        invariant
            n == m0.config.num_layers,
            m0.wf(),
            model.config == m0.config,
            weights_clamped(m0.weights, model.weights, limit, l as int),
    {
        clamp_all(&mut model.weights.qkv[l].data, limit);
        clamp_all(&mut model.weights.attn_out[l].data, limit);
        clamp_all(&mut model.weights.ff_up[l].data, limit);
        clamp_all(&mut model.weights.ff_down[l].data, limit);
    }
    proof {
        let c = m0.config;
        let d = c.dim as int;
        let f = c.ff_dim as int;
        lemma_clamp_keeps(m0.weights.qkv@, model.weights.qkv@, limit, n as int, 3 * d, d);
        lemma_clamp_keeps(m0.weights.attn_out@, model.weights.attn_out@, limit, n as int, d, d);
        lemma_clamp_keeps(m0.weights.ff_up@, model.weights.ff_up@, limit, n as int, f, d);
        lemma_clamp_keeps(m0.weights.ff_down@, model.weights.ff_down@, limit, n as int, d, f);
    }
}

proof fn lemma_clamp_keeps<T: Scalar>(
    a: Seq<Matrix<T>>,
    b: Seq<Matrix<T>>,
    limit: T,
    n: int,
    rows: int,
    cols: int,
)
    requires
        have_shape(a, n, rows, cols),
        matrices_clamped(a, b, limit, n),
    ensures
        have_shape(b, n, rows, cols),
{
    assert forall|l: int| 0 <= l < n implies has_shape(#[trigger] b[l], rows, cols) by {
        assert(has_shape(a[l], rows, cols));
        assert(matrix_clamped(a[l], b[l], limit));
    }
}

/// The embedding after each token behind the first was moved towards the normalised state
/// `xf` in front of it.
pub open spec fn associated<T: Scalar>(
    embed: Matrix<T>,
    tokens: Seq<u32>,
    xf: Seq<T>,
    lr: T,
) -> Seq<Seq<T>> {
    let d = embed.cols as nat;
    let n = (tokens.len() - 1) as nat;
    let moves = rows_of(scaled_all(xf.subrange(0, (n * d) as int), lr), n, d);
    Seq::new(
        embed.rows as nat,
        |w: int|
            Seq::new(
                d,
                |j: int|
                    embed_grad_upto(
                        embed.row_seq(w)[j],
                        tokens.skip(1),
                        moves,
                        embed.rows as int,
                        w,
                        j,
                        n,
                    ),
            ),
    )
}

/// Whether `b` is the embedding `a` after the association.
pub open spec fn embed_associated<T: Scalar>(
    a: Matrix<T>,
    b: Matrix<T>,
    tokens: Seq<u32>,
    xf: Seq<T>,
    lr: T,
) -> bool {
    if tokens.len() == 0 {
        b == a
    } else {
        &&& b.rows == a.rows && b.cols == a.cols
        &&& holds_rows(b.data@, a.cols as nat, associated(a, tokens, xf, lr))
    }
}

/// Moves the embedding of each token behind the first towards the normalised state in front
/// of it.
pub fn associate<T: Scalar>(embed: &mut Matrix<T>, tokens: &[u32], xf: &[T], lr: T)
    requires
        old(embed).wf(),
        old(embed).rows > 0 || tokens@.len() == 0,
        xf@.len() == tokens@.len() * old(embed).cols,
    ensures
        final(embed).wf(),
        final(embed).rows == old(embed).rows,
        final(embed).cols == old(embed).cols,
        embed_associated(*old(embed), *final(embed), tokens@, xf@, lr),
{
    if tokens.len() == 0 {
        return ;
    }
    let ghost e0 = *embed;
    let n: usize = tokens.len() - 1;
    let d: usize = embed.cols;
    proof {
        lemma_row_index(tokens@.len() as int, d as int, n as int);
        assert(xf.len() == xf@.len());
        lemma_rows_held(embed.data@, embed.rows as nat, d as nat);
    }
    let next = copy_range(tokens, 1, tokens.len());
    let states = copy_range(xf, 0, n * d);
    let moves = scale_all(&states, lr);
    let ghost head = rows_of(embed.data@, embed.rows as nat, d as nat);
    add_embedding_grads(embed, &next, &moves, Ghost(head));
    proof {
        assert(next@ =~= tokens@.skip(1));
        let goal = associated(e0, tokens@, xf@, lr);
        assert forall|w: int| 0 <= w < goal.len() implies #[trigger] row_of(
            embed.data@,
            d as int,
            w,
        ) == goal[w] by {
            assert(head[w] == e0.row_seq(w));
            assert(row_of(embed.data@, d as int, w) =~= goal[w]);
        }
    }
}

/// What one step of forward-forward training goes through: the caches of the two windows,
/// the gradients, the model after the descent, and the model with its weights held within
/// the limit.
pub open spec fn step_parts<T: Scalar>(
    before: (ToyLm<T>, ToyLmGrads<T>, Thresholds<T>),
    after: (ToyLm<T>, ToyLmGrads<T>, Thresholds<T>),
    pos: Seq<u32>,
    neg: Seq<u32>,
    lr: T,
    hebb_lr: T,
    cfg: ForwardForwardConfig<T>,
    cp: ForwardCache<T>,
    cn: ForwardCache<T>,
    g: ToyLmGrads<T>,
    descended: ToyLm<T>,
    held: ToyLm<T>,
) -> bool {
    let (m0, v0, s0) = before;
    let (m1, v1, s1) = after;
    let n = m0.config.num_layers as int;
    &&& cached(cp, m0) && cp.tokens@ == pos
    &&& cached(cn, m0) && cn.tokens@ == neg
    &&& local_grads_are(g, m0, cp, cn, s0, cfg.homeostasis)
    &&& stats_moved(s0, s1, cp, cfg.homeostasis, cfg.theta_ema, n)
    &&& took_step(m0, v0, g, descended, v1, lr, cfg.momentum, cfg.max_grad_norm)
    &&& held.config == m0.config
    &&& if T::spec_zero().below_spec(cfg.weight_clip) {
        weights_clamped(descended.weights, held.weights, cfg.weight_clip, n)
    } else {
        held == descended
    }
    &&& m1.config == m0.config
    &&& m1.weights == (ToyLmWeights { token_embed: m1.weights.token_embed, ..held.weights })
    &&& if T::spec_zero().below_spec(hebb_lr) {
        embed_associated(
            held.weights.token_embed,
            m1.weights.token_embed,
            pos,
            cp.x_final_norm@,
            hebb_lr,
        )
    } else {
        m1.weights.token_embed == held.weights.token_embed
    }
}

/// Whether one step of forward-forward training leads from `before` to `after`.
pub open spec fn ff_stepped<T: Scalar>(
    before: (ToyLm<T>, ToyLmGrads<T>, Thresholds<T>),
    after: (ToyLm<T>, ToyLmGrads<T>, Thresholds<T>),
    pos: Seq<u32>,
    neg: Seq<u32>,
    lr: T,
    hebb_lr: T,
    cfg: ForwardForwardConfig<T>,
) -> bool {
    exists|
        cp: ForwardCache<T>,
        cn: ForwardCache<T>,
        g: ToyLmGrads<T>,
        descended: ToyLm<T>,
        held: ToyLm<T>,
    | #[trigger]
        step_parts(before, after, pos, neg, lr, hebb_lr, cfg, cp, cn, g, descended, held)
}

/// Takes one step of forward-forward training on a window and a negative one.
pub fn ff_step<T: Scalar>(
    model: &mut ToyLm<T>,
    vel: &mut ToyLmGrads<T>,
    stats: &mut Thresholds<T>,
    pos: &[u32],
    neg: &[u32],
    lr: T,
    hebb_lr: T,
    cfg: &ForwardForwardConfig<T>,
)
    requires
        old(model).wf(),
        sizes_fit(old(model).config),
        can_run(old(model).config, pos@.len()),
        pos@.len() * old(model).config.num_heads <= usize::MAX,
        neg@.len() == pos@.len(),
        grads_fit(*old(vel), old(model).config),
        old(stats).covers(old(model).config.num_layers as int),
    ensures
        ff_stepped(
            (*old(model), *old(vel), *old(stats)),
            (*final(model), *final(vel), *final(stats)),
            pos@,
            neg@,
            lr,
            hebb_lr,
            *cfg,
        ),
        final(model).wf(),
        final(model).config == old(model).config,
        grads_fit(*final(vel), final(model).config),
        final(stats).same_len(*old(stats)),
{
    let ghost m0 = *model;
    let ghost v0 = *vel;
    let ghost s0 = *stats;
    let (cp, _lp) = forward_cached(model, pos);
    let (cn, _ln) = forward_cached(model, neg);
    proof {
        law_cached_is_shaped(cp, m0);
        law_cached_is_shaped(cn, m0);
    }
    let g = local_gradients(model, &cp, &cn, stats, cfg.homeostasis, cfg.theta_ema);
    apply_step(model, &g, vel, lr, cfg.momentum, cfg.max_grad_norm);
    let ghost descended = *model;
    if T::zero().below(cfg.weight_clip) {
        clamp_weights(model, cfg.weight_clip);
    }
    let ghost held = *model;
    if T::zero().below(hebb_lr) {
        associate(&mut model.weights.token_embed, pos, &cp.x_final_norm, hebb_lr);
    }
    proof {
        assert(step_parts(
            (m0, v0, s0),
            (*model, *vel, *stats),
            pos@,
            neg@,
            lr,
            hebb_lr,
            *cfg,
            cp,
            cn,
            g,
            descended,
            held,
        ));
    }
}

/// Whether the statistics are those of the first window: goodness as mean and threshold, and
/// no variance.
pub open spec fn first_stats<T: Scalar>(
    s: Thresholds<T>,
    model: ToyLm<T>,
    tokens: Seq<u32>,
) -> bool {
    let n = model.config.num_layers as int;
    &&& s.theta@.len() == n && s.g_mean@.len() == n && s.g_var@.len() == n
    &&& exists|cache: ForwardCache<T>| #[trigger]
        cached(cache, model) && cache.tokens@ == tokens && forall|l: int|
            0 <= l < n ==> #[trigger] s.stat(l) == (LayerStat {
                theta: goodness_spec(output_of(cache.layers@[l])),
                mean: goodness_spec(output_of(cache.layers@[l])),
                var: T::spec_zero(),
            })
}

/// Computes the statistics of a window.
pub fn initial_stats<T: Scalar>(model: &ToyLm<T>, tokens: &[u32]) -> (s: Thresholds<T>)
    requires
        model.wf(),
        can_run(model.config, tokens@.len()),
    ensures
        first_stats(s, *model, tokens@),
{
    let (cache, _logits) = forward_cached(model, tokens);
    proof {
        law_cached_is_shaped(cache, *model);
    }
    let n: usize = model.config.num_layers;
    let mut s: Thresholds<T> = Thresholds {
        theta: Vec::with_capacity(n),
        g_mean: Vec::with_capacity(n),
        g_var: Vec::with_capacity(n),
    };
    for l in 0..n
        invariant
            n == model.config.num_layers,
            cache_shaped(cache, model.config),
            s.theta@.len() == l && s.g_mean@.len() == l && s.g_var@.len() == l,
            forall|k: int|
                0 <= k < l ==> #[trigger] s.stat(k) == (LayerStat {
                    theta: goodness_spec(output_of(cache.layers@[k])),
                    mean: goodness_spec(output_of(cache.layers@[k])),
                    var: T::spec_zero(),
                }),
    {
        assert(layer_shaped(cache.layers@[l as int], model.config, cache.tokens@.len()));
        let ghost before = s;
        let y = layer_output(&cache.layers[l]);
        let g = goodness(&y);
        s.theta.push(g);
        s.g_mean.push(g);
        s.g_var.push(T::zero());
        proof {
            assert forall|k: int| 0 <= k < l + 1 implies #[trigger] s.stat(k) == (LayerStat {
                theta: goodness_spec(output_of(cache.layers@[k])),
                mean: goodness_spec(output_of(cache.layers@[k])),
                var: T::spec_zero(),
            }) by {
                if k < l {
                    assert(s.stat(k) == before.stat(k));
                }
            }
        }
    }
    s
}

/// The model, the velocities and the statistics between two steps.
pub struct FfState<T> {
    pub model: ToyLm<T>,
    pub vel: ToyLmGrads<T>,
    pub stats: Thresholds<T>,
}

/// The window of step `k`.
pub open spec fn step_window<T: Scalar>(
    cfg: ForwardForwardConfig<T>,
    ids: Seq<u32>,
    k: int,
) -> Seq<u32> {
    let seq = cfg.seq_len as int;
    window(ids, k % num_windows(ids.len() as int, seq), seq)
}

/// The state of the generator in front of step `k`.
pub open spec fn generator_at<T: Scalar>(
    cfg: ForwardForwardConfig<T>,
    ids: Seq<u32>,
    k: nat,
) -> Seq<u32>
    decreases k,
{
    if k == 0 {
        seeded_state(cfg.seed)
    } else {
        permuted(step_window(cfg, ids, k - 1), generator_at(cfg, ids, (k - 1) as nat)).1
    }
}

/// The negative of step `k`.
pub open spec fn step_negative<T: Scalar>(
    cfg: ForwardForwardConfig<T>,
    ids: Seq<u32>,
    k: int,
) -> Seq<u32> {
    permuted(step_window(cfg, ids, k), generator_at(cfg, ids, k as nat)).0
}

/// Whether step `k` of a forward-forward training was taken: in each epoch one step per
/// window, each with a negative of the window.
pub open spec fn ff_step_at<T: Scalar>(
    cfg: ForwardForwardConfig<T>,
    ids: Seq<u32>,
    states: Seq<FfState<T>>,
    k: int,
) -> bool {
    let pos = step_window(cfg, ids, k);
    let neg = step_negative(cfg, ids, k);
    let epoch = (k / num_windows(ids.len() as int, cfg.seq_len as int)) as nat;
    let a = states[k];
    let b = states[k + 1];
    &&& is_negative_of(neg, pos)
    &&& ff_stepped(
        (a.model, a.vel, a.stats),
        (b.model, b.vel, b.stats),
        pos,
        neg,
        lr_at(cfg.learning_rate, cfg.lr_decay, epoch),
        lr_at(cfg.hebbian_embed_lr, cfg.lr_decay, epoch),
        cfg,
    )
}

/// Whether the states are those of the first `n` steps.
pub open spec fn ff_run<T: Scalar>(
    cfg: ForwardForwardConfig<T>,
    ids: Seq<u32>,
    states: Seq<FfState<T>>,
    n: int,
) -> bool {
    &&& states.len() == n + 1
    &&& forall|k: int| 0 <= k < n ==> #[trigger] ff_step_at(cfg, ids, states, k)
}

/// Whether a training of a trainer in the state `before` starts with the given state.
pub open spec fn ff_starts<T: Scalar>(
    before: ForwardForwardTrainer<T>,
    model: ToyLm<T>,
    ids: Seq<u32>,
    first: FfState<T>,
) -> bool {
    &&& first.model == model
    &&& starts_with(before.vel, model.config, first.vel)
    &&& if before.stats.theta@.len() == 0 {
        first_stats(first.stats, model, window(ids, 0, before.config.seq_len as int))
    } else {
        first.stats == before.stats
    }
}

impl<T: Scalar> Trainer<T> for ForwardForwardTrainer<T> {
    open spec fn algorithm(&self) -> Seq<char> {
        "forward-forward"@
    }

    open spec fn can_train(&self, model: ToyLm<T>, corpus: Seq<u8>) -> bool {
        let seq = self.config.seq_len as int;
        too_small(corpus.len() as int, seq) || {
            &&& runnable(model, seq)
            &&& self.vel matches Some(v) ==> grads_fit(v, model.config)
            &&& self.stats.theta@.len() == 0 || self.stats.covers(model.config.num_layers as int)
        }
    }

    open spec fn trains(
        before: Self,
        model: ToyLm<T>,
        corpus: Seq<u8>,
        after: Self,
        trained: ToyLm<T>,
        result: NseResult<()>,
    ) -> bool {
        let cfg = before.config;
        let seq = cfg.seq_len as int;
        let n = corpus.len() as int;
        let ids = corpus_tokens(corpus);
        let steps = cfg.epochs * num_windows(n, seq);
        if too_small(n, seq) {
            refused_as_small(result, n, seq) && after == before && trained == model
        } else {
            &&& result is Ok
            &&& after.config == cfg
            &&& after.vel is Some
            &&& trained.wf() && trained.config == model.config
            &&& grads_fit(after.vel->Some_0, model.config)
            &&& after.stats.covers(model.config.num_layers as int)
            &&& exists|states: Seq<FfState<T>>| #[trigger]
                ff_run(cfg, ids, states, steps) && ff_starts(before, model, ids, states[0])
                    && states[steps] == (FfState {
                    model: trained,
                    vel: after.vel->Some_0,
                    stats: after.stats,
                })
        }
    }

    fn name(&self) -> (r: &'static str) {
        "forward-forward"
    }

    fn train(&mut self, model: &mut ToyLm<T>, corpus: &[u8]) -> (r: NseResult<()>) {
        let cfg = self.config;
        let seq: usize = cfg.seq_len;
        let epochs: usize = cfg.epochs;
        let ids = tokenize(corpus);
        let n: usize = ids.len();
        if n < 2 || n - 2 < seq {
            return Err(too_small_error(n, seq));
        }
        let ghost t0 = *self;
        let ghost m0 = *model;
        let mut lr = cfg.learning_rate;
        let mut hebb_lr = cfg.hebbian_embed_lr;
        let windows: usize = n - seq - 1;
        let mut vel = take_velocities(&mut self.vel, &model.config);
        if self.stats.theta.len() == 0 {
            let first = copy_range(&ids, 0, seq);
            self.stats = initial_stats(model, &first);
        }
        let mut rng: StdRng = seeded(cfg.seed);
        let ghost mut states: Seq<FfState<T>> = seq![
            FfState { model: *model, vel: vel, stats: self.stats },
        ];
        assert(0 * windows == 0) by (nonlinear_arith);
        for epoch in 0..epochs
            invariant
                ids@ == corpus_tokens(corpus@),
                n == ids@.len(),
                cfg == t0.config,
                self.config == cfg,
                seq == cfg.seq_len,
                windows == num_windows(n as int, seq as int),
                windows > 0,
                runnable(m0, seq as int),
                model.wf(),
                model.config == m0.config,
                grads_fit(vel, m0.config),
                self.stats.covers(m0.config.num_layers as int),
                lr == lr_at(cfg.learning_rate, cfg.lr_decay, epoch as nat),
                hebb_lr == lr_at(cfg.hebbian_embed_lr, cfg.lr_decay, epoch as nat),
                ff_run(cfg, ids@, states, epoch * windows),
                ff_starts(t0, m0, ids@, states[0]),
                states[epoch * windows] == (FfState { model: *model, vel: vel, stats: self.stats }),
                generator_state(rng) == generator_at(cfg, ids@, (epoch * windows) as nat),
        {
            proof {
                lemma_step_count(epoch as int, 0, windows as int);
            }
            for start in 0..windows
                invariant
                    ids@ == corpus_tokens(corpus@),
                    n == ids@.len(),
                    cfg == t0.config,
                    self.config == cfg,
                    seq == cfg.seq_len,
                    windows == num_windows(n as int, seq as int),
                    windows > 0,
                    runnable(m0, seq as int),
                    model.wf(),
                    model.config == m0.config,
                    grads_fit(vel, m0.config),
                    self.stats.covers(m0.config.num_layers as int),
                    lr == lr_at(cfg.learning_rate, cfg.lr_decay, epoch as nat),
                    hebb_lr == lr_at(cfg.hebbian_embed_lr, cfg.lr_decay, epoch as nat),
                    0 <= epoch * windows,
                    ff_run(cfg, ids@, states, epoch * windows + start),
                    ff_starts(t0, m0, ids@, states[0]),
                    states[epoch * windows + start] == (FfState {
                        model: *model,
                        vel: vel,
                        stats: self.stats,
                    }),
                    generator_state(rng) == generator_at(
                        cfg,
                        ids@,
                        (epoch * windows + start) as nat,
                    ),
            {
                let pos = copy_range(&ids, start, start + seq);
                let neg = permute_window(&pos, &mut rng);
                let ghost a = FfState { model: *model, vel: vel, stats: self.stats };
                ff_step(model, &mut vel, &mut self.stats, &pos, &neg, lr, hebb_lr, &cfg);
                proof {
                    let k = epoch * windows + start;
                    let before = states;
                    states = states.push(FfState { model: *model, vel: vel, stats: self.stats });
                    lemma_step_count(epoch as int, start as int, windows as int);
                    assert forall|j: int| 0 <= j < k + 1 implies #[trigger] ff_step_at(
                        cfg,
                        ids@,
                        states,
                        j,
                    ) by {
                        if j < k {
                            assert(ff_step_at(cfg, ids@, before, j));
                            assert(states[j] == before[j] && states[j + 1] == before[j + 1]);
                        } else {
                            let b = states[k + 1];
                            assert(states[k] == a);
                            assert(pos@ == window(ids@, k % (windows as int), seq as int));
                            assert(ff_stepped(
                                (a.model, a.vel, a.stats),
                                (b.model, b.vel, b.stats),
                                pos@,
                                neg@,
                                lr,
                                hebb_lr,
                                cfg,
                            ));
                            assert(neg@ == step_negative(cfg, ids@, k));
                        }
                    }
                }
            }
            lr = lr.times(cfg.lr_decay);
            hebb_lr = hebb_lr.times(cfg.lr_decay);
            proof {
                lemma_step_count(epoch as int, 0, windows as int);
            }
        }
        self.vel = Some(vel);
        proof {
            assert(ff_run(cfg, ids@, states, epochs * windows));
        }
        Ok(())
    }
}

/// Whether every number lies within the limit.
pub open spec fn within<T: Scalar>(s: Seq<T>, limit: T) -> bool {
    forall|i: int|
        0 <= i < s.len() ==> !(#[trigger] s[i]).below_spec(limit.negated_spec())
            && !limit.below_spec(s[i])
}

/// Whether every matrix of the first `n` layers lies within the limit.
pub open spec fn matrices_within<T: Scalar>(w: ToyLmWeights<T>, limit: T, n: int) -> bool {
    &&& forall|l: int| 0 <= l < n ==> within((#[trigger] w.qkv@[l]).data@, limit)
    &&& forall|l: int| 0 <= l < n ==> within((#[trigger] w.attn_out@[l]).data@, limit)
    &&& forall|l: int| 0 <= l < n ==> within((#[trigger] w.ff_up@[l]).data@, limit)
    &&& forall|l: int| 0 <= l < n ==> within((#[trigger] w.ff_down@[l]).data@, limit)
}

proof fn lemma_clamped_within<T: Scalar>(
    a: Seq<Matrix<T>>,
    b: Seq<Matrix<T>>,
    limit: T,
    n: int,
)
    requires
        matrices_clamped(a, b, limit, n),
        !limit.below_spec(limit.negated_spec()),
    ensures
        forall|l: int| 0 <= l < n ==> within((#[trigger] b[l]).data@, limit),
{
    assert forall|l: int| 0 <= l < n implies within((#[trigger] b[l]).data@, limit) by {
        let s = a[l].data@;
        assert(matrix_clamped(a[l], b[l], limit));
        assert forall|i: int| 0 <= i < b[l].data@.len() implies !(
        #[trigger] b[l].data@[i]).below_spec(limit.negated_spec()) && !limit.below_spec(
            b[l].data@[i],
        ) by {
            law_clamped_within(s[i], limit);
        }
    }
}

/// A training with a limit on the weights that takes any step leaves every matrix of the
/// layers within the limit.
pub proof fn law_trained_within_limit<T: Scalar>(
    before: ForwardForwardTrainer<T>,
    model: ToyLm<T>,
    corpus: Seq<u8>,
    after: ForwardForwardTrainer<T>,
    trained: ToyLm<T>,
    result: NseResult<()>,
)
    requires
        ForwardForwardTrainer::trains(before, model, corpus, after, trained, result),
        result is Ok,
        before.config.epochs >= 1,
        T::spec_zero().below_spec(before.config.weight_clip),
        !before.config.weight_clip.below_spec(before.config.weight_clip.negated_spec()),
    ensures
        trained.config == model.config,
        matrices_within(
            trained.weights,
            before.config.weight_clip,
            model.config.num_layers as int,
        ),
{
    let cfg = before.config;
    let windows = num_windows(corpus.len() as int, cfg.seq_len as int);
    let ids = corpus_tokens(corpus);
    let steps = cfg.epochs * windows;
    let states = choose|states: Seq<FfState<T>>| #[trigger]
        ff_run(cfg, ids, states, steps) && ff_starts(before, model, ids, states[0])
            && states[steps] == (FfState {
            model: trained,
            vel: after.vel->Some_0,
            stats: after.stats,
        });
    assert(steps >= 1) by (nonlinear_arith)
        requires
            cfg.epochs >= 1,
            windows >= 1,
            steps == cfg.epochs * windows,
    ;
    let k = steps - 1;
    lemma_config_kept(cfg, ids, states, steps, k);
    assert(ff_step_at(cfg, ids, states, k));
    let pos = step_window(cfg, ids, k);
    let neg = step_negative(cfg, ids, k);
    let epoch = (k / windows) as nat;
    let lr = lr_at(cfg.learning_rate, cfg.lr_decay, epoch);
    let hebb_lr = lr_at(cfg.hebbian_embed_lr, cfg.lr_decay, epoch);
    let a = (states[k].model, states[k].vel, states[k].stats);
    let b = (states[k + 1].model, states[k + 1].vel, states[k + 1].stats);
    assert(ff_stepped(a, b, pos, neg, lr, hebb_lr, cfg));
    let (cp, cn, g, descended, held) = choose|
        cp: ForwardCache<T>,
        cn: ForwardCache<T>,
        g: ToyLmGrads<T>,
        descended: ToyLm<T>,
        held: ToyLm<T>,
    | #[trigger]
        step_parts(a, b, pos, neg, lr, hebb_lr, cfg, cp, cn, g, descended, held);
    let n = model.config.num_layers as int;
    let limit = cfg.weight_clip;
    lemma_clamped_within(descended.weights.qkv@, held.weights.qkv@, limit, n);
    lemma_clamped_within(descended.weights.attn_out@, held.weights.attn_out@, limit, n);
    lemma_clamped_within(descended.weights.ff_up@, held.weights.ff_up@, limit, n);
    lemma_clamped_within(descended.weights.ff_down@, held.weights.ff_down@, limit, n);
}

/// Steps keep the sizes of a model.
proof fn lemma_config_kept<T: Scalar>(
    cfg: ForwardForwardConfig<T>,
    ids: Seq<u32>,
    states: Seq<FfState<T>>,
    n: int,
    k: int,
)
    requires
        ff_run(cfg, ids, states, n),
        0 <= k <= n,
    ensures
        states[k].model.config == states[0].model.config,
    decreases k,
{
    if k > 0 {
        lemma_config_kept(cfg, ids, states, n, k - 1);
        assert(ff_step_at(cfg, ids, states, k - 1));
    }
}

/// Whether a velocity of zero stays zero under gradients of zero, and numbers stay where they
/// are under it. Finite floats are like that.
pub open spec fn rests<T: Scalar>(cfg: ForwardForwardConfig<T>, s: Seq<T>) -> bool {
    let zero = T::spec_zero();
    &&& forall|g: ToyLmGrads<T>|
        cfg.momentum.times_spec(zero).plus_spec(
            zero.times_spec(#[trigger] clip_scale(g, cfg.max_grad_norm)),
        ) == zero
    &&& forall|e: nat, i: int|
        0 <= i < s.len() ==> (#[trigger] s[i]).minus_spec(
            (#[trigger] lr_at(cfg.learning_rate, cfg.lr_decay, e)).times_spec(zero),
        ) == s[i]
}

proof fn lemma_final_gain_kept<T: Scalar>(
    cfg: ForwardForwardConfig<T>,
    ids: Seq<u32>,
    states: Seq<FfState<T>>,
    n: int,
    k: int,
)
    requires
        ff_run(cfg, ids, states, n),
        0 <= k <= n,
        all_zero(states[0].vel.ln_f_gain@),
        states[0].vel.ln_f_gain@.len() == states[0].model.config.dim,
        states[0].model.weights.ln_f_gain@.len() == states[0].model.config.dim,
        rests(cfg, states[0].model.weights.ln_f_gain@),
    ensures
        states[k].model.weights.ln_f_gain@ == states[0].model.weights.ln_f_gain@,
        all_zero(states[k].vel.ln_f_gain@),
        states[k].vel.ln_f_gain@.len() == states[0].model.config.dim,
    decreases k,
{
    if k > 0 {
        let j = k - 1;
        lemma_final_gain_kept(cfg, ids, states, n, j);
        lemma_config_kept(cfg, ids, states, n, j);
        assert(ff_step_at(cfg, ids, states, j));
        let pos = step_window(cfg, ids, j);
        let neg = step_negative(cfg, ids, j);
        let epoch = (j / num_windows(ids.len() as int, cfg.seq_len as int)) as nat;
        let lr = lr_at(cfg.learning_rate, cfg.lr_decay, epoch);
        let hebb_lr = lr_at(cfg.hebbian_embed_lr, cfg.lr_decay, epoch);
        let a = (states[j].model, states[j].vel, states[j].stats);
        let b = (states[k].model, states[k].vel, states[k].stats);
        assert(ff_stepped(a, b, pos, neg, lr, hebb_lr, cfg));
        let (cp, cn, g, descended, held) = choose|
            cp: ForwardCache<T>,
            cn: ForwardCache<T>,
            g: ToyLmGrads<T>,
            descended: ToyLm<T>,
            held: ToyLm<T>,
        | #[trigger]
            step_parts(a, b, pos, neg, lr, hebb_lr, cfg, cp, cn, g, descended, held);
        let scale = clip_scale(g, cfg.max_grad_norm);
        let w0 = states[j].model.weights.ln_f_gain@;
        let v1 = b.1.ln_f_gain@;
        assert(held.weights.ln_f_gain == descended.weights.ln_f_gain);
        assert(a.0.config == states[j].model.config);
        assert(all_zero(g.ln_f_gain@));
        assert(v1 == velocity(a.1.ln_f_gain@, g.ln_f_gain@, cfg.momentum, scale));
        assert(g.ln_f_gain@.len() == v1.len());
        assert(all_zero(v1));
        assert(descended.weights.ln_f_gain@ =~= w0);
    }
}

/// A fresh trainer's training leaves the final gain as it was, since nothing pulls at it.
pub proof fn law_final_gain_kept<T: Scalar>(
    before: ForwardForwardTrainer<T>,
    model: ToyLm<T>,
    corpus: Seq<u8>,
    after: ForwardForwardTrainer<T>,
    trained: ToyLm<T>,
    result: NseResult<()>,
)
    requires
        ForwardForwardTrainer::trains(before, model, corpus, after, trained, result),
        model.wf(),
        before.vel is None,
        rests(before.config, model.weights.ln_f_gain@),
    ensures
        trained.weights.ln_f_gain@ == model.weights.ln_f_gain@,
{
    let cfg = before.config;
    let seq = cfg.seq_len as int;
    if !too_small(corpus.len() as int, seq) {
        let ids = corpus_tokens(corpus);
        let steps = cfg.epochs * num_windows(corpus.len() as int, seq);
        let states = choose|states: Seq<FfState<T>>| #[trigger]
            ff_run(cfg, ids, states, steps) && ff_starts(before, model, ids, states[0])
                && states[steps] == (FfState {
                model: trained,
                vel: after.vel->Some_0,
                stats: after.stats,
            });
        assert(steps >= 0) by (nonlinear_arith)
            requires
                cfg.epochs >= 0,
                num_windows(corpus.len() as int, seq) >= 0,
                steps == cfg.epochs * num_windows(corpus.len() as int, seq),
        ;
        lemma_final_gain_kept(cfg, ids, states, steps, steps);
    }
}

} // verus!
