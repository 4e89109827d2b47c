//! Training by gradient descent with momentum.

use vstd::prelude::*;
use crate::autograd::{
    backward, cached, forward_cached, grads_are, grads_fit, law_cached_is_shaped, ForwardCache,
    ToyLmGrads,
};
use crate::config::Config;
use crate::error::NseResult;
use crate::scalar::Scalar;
use crate::sgd_apply::{apply_step, took_step};
use crate::tensor::copy_range;
use crate::tokenizer::corpus_tokens;
use crate::toy_lm::{all_zero, can_run, sizes_fit, ToyLm};
use crate::trainer::{
    lemma_step_count, lr_at, num_windows, refused_as_small, tokenize, too_small, too_small_error,
    trainable, window, Trainer,
};
use crate::transformer::one;

verus! {

/// The settings of gradient descent.
#[derive(Debug, Clone, Copy)]
pub struct SgdConfig<T> {
    pub learning_rate: T,
    /// The length of the windows.
    pub seq_len: usize,
    pub epochs: usize,
    /// What the learning rate is multiplied by after each epoch.
    pub lr_decay: T,
    /// How often callers report progress; zero for silence.
    pub log_every: usize,
    /// The seed for the weights to start from.
    pub seed: u64,
}

impl<T: Scalar> Default for SgdConfig<T> {
    fn default() -> (r: Self)
        ensures
            r.learning_rate == T::spec_count(3).over_spec(T::spec_count(10)),
            r.seq_len == 32,
            r.epochs == 200,
            r.lr_decay == T::spec_count(995).over_spec(T::spec_count(1000)),
            r.log_every == 0,
            r.seed == 1337,
    {
        SgdConfig {
            learning_rate: T::from_count(3).over(T::from_count(10)),
            seq_len: 32,
            epochs: 200,
            lr_decay: T::from_count(995).over(T::from_count(1000)),
            log_every: 0,
            seed: 1337,
        }
    }
}

/// Gradient descent with momentum and clipping. The velocities are kept from one training
/// to the next.
#[derive(Debug, Clone)]
pub struct SgdTrainer<T> {
    pub config: SgdConfig<T>,
    pub momentum: T,
    /// The largest norm of all gradients together.
    pub max_grad_norm: T,
    /// The velocities, once there are any.
    pub vel: Option<ToyLmGrads<T>>,
}

impl<T: Scalar> SgdTrainer<T> {
    /// A trainer with momentum 0.9 and gradients up to norm one.
    pub fn new(config: SgdConfig<T>) -> (r: Self)
        ensures
            r.config == config,
            r.momentum == T::spec_count(9).over_spec(T::spec_count(10)),
            r.max_grad_norm == one::<T>(),
            r.vel is None,
    {
        SgdTrainer {
            config,
            momentum: T::from_count(9).over(T::from_count(10)),
            max_grad_norm: T::from_count(1),
            vel: None,
        }
    }
}

/// Whether gradients are all zero and have the shapes that the sizes ask for.
pub open spec fn zero_grads<T: Scalar>(g: ToyLmGrads<T>, c: Config) -> bool {
    &&& grads_fit(g, c)
    &&& all_zero(g.token_embed.data@)
    &&& forall|l: int| 0 <= l < c.num_layers ==> all_zero((#[trigger] g.qkv@[l]).data@)
    &&& forall|l: int| 0 <= l < c.num_layers ==> all_zero((#[trigger] g.attn_out@[l]).data@)
    &&& forall|l: int| 0 <= l < c.num_layers ==> all_zero((#[trigger] g.ff_up@[l]).data@)
    &&& forall|l: int| 0 <= l < c.num_layers ==> all_zero((#[trigger] g.ff_down@[l]).data@)
    &&& forall|l: int| 0 <= l < c.num_layers ==> all_zero((#[trigger] g.ln1_gain@[l])@)
    &&& forall|l: int| 0 <= l < c.num_layers ==> all_zero((#[trigger] g.ln2_gain@[l])@)
    &&& all_zero(g.ln_f_gain@)
}

/// Whether `v` are the velocities to start with: those kept, or else zero.
pub open spec fn starts_with<T: Scalar>(
    kept: Option<ToyLmGrads<T>>,
    c: Config,
    v: ToyLmGrads<T>,
) -> bool {
    match kept {
        Some(k) => v == k,
        None => zero_grads(v, c),
    }
}

/// The velocities to start with: those kept, or else zero.
pub fn take_velocities<T: Scalar>(kept: &mut Option<ToyLmGrads<T>>, c: &Config) -> (v: ToyLmGrads<T>)
    requires
        sizes_fit(*c),
        *old(kept) matches Some(k) ==> grads_fit(k, *c),
    ensures
        starts_with(*old(kept), *c, v),
        grads_fit(v, *c),
        *final(kept) is None,
{
    match kept.take() {
        Some(k) => k,
        None => ToyLmGrads::zeros(c),
    }
}

/// Whether a model took a step against the gradients of the mean loss over a window.
pub open spec fn descended<T: Scalar>(
    m0: ToyLm<T>,
    v0: ToyLmGrads<T>,
    m1: ToyLm<T>,
    v1: ToyLmGrads<T>,
    tokens: Seq<u32>,
    targets: Seq<u32>,
    lr: T,
    momentum: T,
    max_grad_norm: T,
) -> bool {
    exists|cache: ForwardCache<T>, g: ToyLmGrads<T>|
        cached(cache, m0) && cache.tokens@ == tokens && #[trigger] grads_are(g, m0, cache, targets)
            && took_step(m0, v0, g, m1, v1, lr, momentum, max_grad_norm)
}

/// Whether step `k` of a training by gradient descent was taken: in each epoch one step
/// per window, from the first window to the last.
pub open spec fn sgd_step_at<T: Scalar>(
    t: SgdTrainer<T>,
    ids: Seq<u32>,
    models: Seq<ToyLm<T>>,
    vels: Seq<ToyLmGrads<T>>,
    k: int,
) -> bool {
    let seq = t.config.seq_len as int;
    let windows = num_windows(ids.len() as int, seq);
    let start = k % windows;
    descended(
        models[k],
        vels[k],
        models[k + 1],
        vels[k + 1],
        window(ids, start, seq),
        window(ids, start + 1, seq),
        lr_at(t.config.learning_rate, t.config.lr_decay, (k / windows) as nat),
        t.momentum,
        t.max_grad_norm,
    )
}

/// Whether the models and velocities are those of the first `n` steps.
pub open spec fn sgd_run<T: Scalar>(
    t: SgdTrainer<T>,
    ids: Seq<u32>,
    models: Seq<ToyLm<T>>,
    vels: Seq<ToyLmGrads<T>>,
    n: int,
) -> bool {
    &&& models.len() == n + 1
    &&& vels.len() == n + 1
    &&& forall|k: int| 0 <= k < n ==> #[trigger] sgd_step_at(t, ids, models, vels, k)
}

/// Takes one step against the gradients of the mean loss over a window.
pub fn descend<T: Scalar>(
    model: &mut ToyLm<T>,
    vel: &mut ToyLmGrads<T>,
    tokens: &[u32],
    targets: &[u32],
    lr: T,
    momentum: T,
    max_grad_norm: T,
)
    requires
        old(model).wf(),
        sizes_fit(old(model).config),
        can_run(old(model).config, tokens@.len()),
        tokens@.len() * old(model).config.num_heads <= usize::MAX,
        grads_fit(*old(vel), old(model).config),
        targets@.len() == tokens@.len(),
        forall|t: int|
            0 <= t < targets@.len() ==> (#[trigger] targets@[t]) < old(model).config.vocab_size,
    ensures
        descended(
            *old(model),
            *old(vel),
            *final(model),
            *final(vel),
            tokens@,
            targets@,
            lr,
            momentum,
            max_grad_norm,
        ),
        final(model).wf(),
        final(model).config == old(model).config,
        grads_fit(*final(vel), final(model).config),
{
    let ghost m0 = *model;
    let ghost v0 = *vel;
    let (cache, _logits) = forward_cached(model, tokens);
    proof {
        law_cached_is_shaped(cache, m0);
    }
    let (_loss, grads) = backward(model, &cache, targets);
    apply_step(model, &grads, vel, lr, momentum, max_grad_norm);
    proof {
        assert(grads_are(grads, m0, cache, targets@));
    }
}

impl<T: Scalar> Trainer<T> for SgdTrainer<T> {
    open spec fn algorithm(&self) -> Seq<char> {
        "sgd-baseline"@
    }

    open spec fn can_train(&self, model: ToyLm<T>, corpus: Seq<u8>) -> bool {
        let seq = self.config.seq_len as int;
        too_small(corpus.len() as int, seq) || self.config.epochs == 0 || {
            &&& trainable(model, corpus, seq)
            &&& self.vel matches Some(v) ==> grads_fit(v, model.config)
        }
    }

    open spec fn trains(
        before: Self,
        model: ToyLm<T>,
        corpus: Seq<u8>,
        after: Self,
        trained: ToyLm<T>,
        result: NseResult<()>,
    ) -> bool {
        let seq = before.config.seq_len as int;
        let n = corpus.len() as int;
        let ids = corpus_tokens(corpus);
        let steps = before.config.epochs * num_windows(n, seq);
        if too_small(n, seq) {
            refused_as_small(result, n, seq) && after == before && trained == model
        } else if before.config.epochs == 0 {
            result is Ok && after == before && trained == model
        } else {
            &&& result is Ok
            &&& after.config == before.config
            &&& after.momentum == before.momentum
            &&& after.max_grad_norm == before.max_grad_norm
            &&& after.vel is Some
            &&& trained.wf() && trained.config == model.config
            &&& grads_fit(after.vel->Some_0, model.config)
            &&& exists|models: Seq<ToyLm<T>>, vels: Seq<ToyLmGrads<T>>| #[trigger]
                sgd_run(before, ids, models, vels, steps) && models[0] == model && starts_with(
                    before.vel,
                    model.config,
                    vels[0],
                ) && models[steps] == trained && vels[steps] == after.vel->Some_0
        }
    }

    fn name(&self) -> (r: &'static str) {
        "sgd-baseline"
    }

    fn train(&mut self, model: &mut ToyLm<T>, corpus: &[u8]) -> (r: NseResult<()>) {
        let seq: usize = self.config.seq_len;
        let epochs: usize = self.config.epochs;
        let ids = tokenize(corpus);
        let n: usize = ids.len();
        if n < 2 || n - 2 < seq {
            return Err(too_small_error(n, seq));
        }
        if epochs == 0 {
            return Ok(());
        }
        let ghost t0 = *self;
        let ghost m0 = *model;
        let momentum = self.momentum;
        let clip = self.max_grad_norm;
        let decay = self.config.lr_decay;
        let mut lr = self.config.learning_rate;
        let windows: usize = n - seq - 1;
        let mut vel = take_velocities(&mut self.vel, &model.config);
        let ghost mut models: Seq<ToyLm<T>> = seq![*model];
        let ghost mut vels: Seq<ToyLmGrads<T>> = seq![vel];
        for epoch in 0..epochs
            invariant
                ids@ == corpus_tokens(corpus@),
                n == ids@.len(),
                seq == t0.config.seq_len,
                epochs == t0.config.epochs,
                momentum == t0.momentum,
                clip == t0.max_grad_norm,
                decay == t0.config.lr_decay,
                windows == num_windows(n as int, seq as int),
                windows > 0,
                trainable(m0, corpus@, seq as int),
                model.wf(),
                model.config == m0.config,
                grads_fit(vel, m0.config),
                lr == lr_at(t0.config.learning_rate, decay, epoch as nat),
                sgd_run(t0, ids@, models, vels, epoch * windows),
                models[0] == m0,
                starts_with(t0.vel, m0.config, vels[0]),
                models[epoch * windows] == *model,
                vels[epoch * windows] == vel,
        {
            proof {
                lemma_step_count(epoch as int, 0, windows as int);
            }
            for start in 0..windows
                invariant
                    ids@ == corpus_tokens(corpus@),
                    n == ids@.len(),
                    seq == t0.config.seq_len,
                    momentum == t0.momentum,
                    clip == t0.max_grad_norm,
                    decay == t0.config.lr_decay,
                    windows == num_windows(n as int, seq as int),
                    windows > 0,
                    trainable(m0, corpus@, seq as int),
                    model.wf(),
                    model.config == m0.config,
                    grads_fit(vel, m0.config),
                    lr == lr_at(t0.config.learning_rate, decay, epoch as nat),
                    0 <= epoch * windows,
                    sgd_run(t0, ids@, models, vels, epoch * windows + start),
                    models[0] == m0,
                    starts_with(t0.vel, m0.config, vels[0]),
                    models[epoch * windows + start] == *model,
                    vels[epoch * windows + start] == vel,
            {
                let tokens = copy_range(&ids, start, start + seq);
                let targets = copy_range(&ids, start + 1, start + 1 + seq);
                proof {
                    assert forall|t: int| 0 <= t < targets@.len() implies (#[trigger] targets@[t])
                        < model.config.vocab_size by {
                        assert(targets@[t] == ids@[start + 1 + t]);
                    }
                }
                let ghost ma = *model;
                let ghost va = vel;
                descend(model, &mut vel, &tokens, &targets, lr, momentum, clip);
                proof {
                    let k = epoch * windows + start;
                    let before = models;
                    let before_v = vels;
                    models = models.push(*model);
                    vels = vels.push(vel);
                    lemma_step_count(epoch as int, start as int, windows as int);
                    assert forall|j: int| 0 <= j < k + 1 implies #[trigger] sgd_step_at(
                        t0,
                        ids@,
                        models,
                        vels,
                        j,
                    ) by {
                        if j < k {
                            assert(sgd_step_at(t0, ids@, before, before_v, j));
                            assert(models[j] == before[j] && models[j + 1] == before[j + 1]);
                            assert(vels[j] == before_v[j] && vels[j + 1] == before_v[j + 1]);
                        } else {
                            assert(models[k] == ma && vels[k] == va);
                        }
                    }
                }
            }
            lr = lr.times(decay);
            proof {
                lemma_step_count(epoch as int, 0, windows as int);
            }
        }
        self.vel = Some(vel);
        proof {
            assert(sgd_run(t0, ids@, models, vels, epochs * windows));
        }
        Ok(())
    }
}

} // verus!
