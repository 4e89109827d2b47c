//! What the steps of the trainers do to a model.

use vstd::prelude::*;
use vstd::arithmetic::power2::pow2;
use crate::autograd::{
    cached, embed_grad_upto, layer_cached, layer_grads_are, lemma_hidden_len, scaled_all,
    ForwardCache, LayerGrads, ToyLmGrads,
};
use crate::calibration::{part_inputs, Part};
use crate::cluster::unit;
use crate::config::Config;
use crate::exact::{
    computes_exactly, law_dot_linear, law_dot_symmetric, lemma_add, lemma_count_quotient, lemma_div,
    lemma_mul, lemma_negative_factor, lemma_opposite, lemma_shifted_difference, lemma_sum_scales,
    lemma_swap,
};
use crate::forward_forward::{
    associated, clamped, coeffs_spec, ff_step_at, ff_stepped, goodness_grad, goodness_spec,
    layer_local, layer_parts, layer_sums, next_stat, output_of, sigmoid_spec, spread_spec,
    step_negative, step_window, sum_of_two, FfState, ForwardForwardConfig, LayerStat, Thresholds,
};
use crate::forward_laws::lemma_product_not_negative;
use crate::hopfield::{key_of, slot_at, value_of, write_at, wrote, HopfieldConfig};
use crate::kernel::lemma_plus_zero;
use crate::lsh::{hash_spec, law_masking_keeps_or_empties};
use crate::lsh_sparse::{
    bits_for, clamped_fraction, descended_sparse, layer_masked, lsh_step_at, LshSparseConfig,
};
use crate::options::Homeostasis;
use crate::order::{
    finite, keeps_order, lemma_between_finite, lemma_chain, lemma_exp, lemma_inverse, lemma_minus,
    lemma_negated, lemma_not_below, lemma_over, lemma_plus, lemma_positive, lemma_times,
    lemma_times_naught,
};
use crate::outlier::{norm_spec, squares};
use crate::permute::is_negative_of;
use crate::scalar::{dot_spec, products, Scalar};
use crate::sgd::{descended, sgd_step_at, SgdTrainer};
use crate::sgd_apply::{clip_scale, moved, norm_sq_spec, norm_sq_upto, velocity, StepSize};
use crate::tensor::{row_of, Matrix};
use crate::toy_lm::{after_attention, clamped_token, hidden, ToyLm, ToyLmWeights};
use crate::trainer::{lr_at, num_windows, window};
use crate::transformer::{
    added_rows, applied_rows, gelu_rows, lemma_added_rows, lemma_rows_read, norm_rows, one, rows_of,
    two,
};

verus! {

/// A first step goes downhill: a weight whose gradient is not negative does not rise, and one
/// whose gradient is not positive does not fall.
pub proof fn law_step_goes_downhill<T: Scalar>(
    w0: Seq<T>,
    v0: Seq<T>,
    g: Seq<T>,
    w1: Seq<T>,
    v1: Seq<T>,
    s: StepSize<T>,
    i: int,
)
    requires
        keeps_order::<T>(),
        moved(w0, v0, g, w1, v1, s),
        0 <= i < w0.len(),
        v0.len() == w0.len(),
        g.len() == w0.len(),
        v0[i] == T::spec_zero(),
        finite(s.momentum) && finite(s.lr) && finite(s.scale),
        T::spec_zero().at_most_spec(s.lr),
        T::spec_zero().at_most_spec(s.scale),
        finite(w0[i]) && finite(g[i]) && finite(g[i].times_spec(s.scale)),
        finite(v1[i]) && finite(s.lr.times_spec(v1[i])),
    ensures
        T::spec_zero().at_most_spec(g[i]) ==> w1[i].at_most_spec(w0[i]),
        g[i].at_most_spec(T::spec_zero()) ==> w0[i].at_most_spec(w1[i]),
{
    let zero = T::spec_zero();
    let n = s.momentum.times_spec(zero);
    let x = g[i].times_spec(s.scale);
    let y = s.lr.times_spec(v1[i]);
    assert(v1[i] == n.plus_spec(x));
    assert(w1[i] == w0[i].minus_spec(y));
    lemma_not_below(zero, zero);
    lemma_times_naught(s.momentum, zero);
    lemma_minus(w0[i], zero, w0[i]);
    lemma_times_naught(s.lr, zero);
    if zero.at_most_spec(g[i]) {
        lemma_product_not_negative(g[i], s.scale);
        lemma_plus(n, x, n);
        lemma_chain(zero, x, v1[i]);
        lemma_product_not_negative(s.lr, v1[i]);
        lemma_minus(zero, y, w0[i]);
        lemma_chain(w1[i], w0[i].minus_spec(zero), w0[i]);
    }
    if g[i].at_most_spec(zero) {
        lemma_times(g[i], zero, s.scale);
        lemma_times_naught(s.scale, zero);
        lemma_chain(x, zero.times_spec(s.scale), zero);
        lemma_plus(n, zero, x);
        lemma_plus(x, zero, zero);
        lemma_plus(zero, zero, zero);
        lemma_chain(v1[i], zero.plus_spec(x), zero.plus_spec(zero));
        lemma_chain(v1[i], zero.plus_spec(zero), zero);
        lemma_times(v1[i], zero, s.lr);
        lemma_chain(y, s.lr.times_spec(zero), zero);
        lemma_minus(y, zero, w0[i]);
        lemma_chain(w0[i], w0[i].minus_spec(zero), w1[i]);
    }
}

/// The velocity keeps a share of what it was: without a gradient it is the old one times the
/// momentum. A gradient comes on top, scaled.
pub proof fn law_velocity<T: Scalar>(v: Seq<T>, g: Seq<T>, momentum: T, scale: T, i: int)
    requires
        computes_exactly::<T>(),
        0 <= i < v.len(),
        g.len() == v.len(),
    ensures
        g[i] == T::spec_zero() ==> velocity(v, g, momentum, scale)[i] == momentum.times_spec(v[i]),
        v[i] == T::spec_zero() ==> velocity(v, g, momentum, scale)[i] == g[i].times_spec(scale),
{
    let zero = T::spec_zero();
    lemma_mul(momentum, momentum, momentum);
    lemma_swap(zero, scale);
    lemma_mul(scale, scale, scale);
    lemma_plus_zero(momentum.times_spec(v[i]));
    lemma_plus_zero(g[i].times_spec(scale));
}

/// Clipping brings gradients that are too long to the largest length and leaves others alone.
pub proof fn law_clipping<T: Scalar>(g: ToyLmGrads<T>, max_norm: T)
    requires
        computes_exactly::<T>(),
        ({
            let norm = norm_sq_spec(g).root_spec();
            max_norm.below_spec(norm) ==> norm.times_spec(one::<T>().over_spec(norm)) == one::<T>()
                && one::<T>().over_spec(T::spec_count(100000000)).below_spec(norm)
        }),
    ensures
        ({
            let norm = norm_sq_spec(g).root_spec();
            if max_norm.below_spec(norm) {
                clip_scale(g, max_norm).times_spec(norm) == max_norm
            } else {
                clip_scale(g, max_norm).times_spec(norm) == norm
            }
        }),
{
    let norm = norm_sq_spec(g).root_spec();
    let inv = one::<T>().over_spec(norm);
    lemma_div(max_norm, norm, 0);
    lemma_div(norm, norm, 0);
    lemma_mul(max_norm, inv, norm);
    lemma_swap(inv, norm);
    lemma_swap(max_norm, one::<T>());
}

/// Whether the squares of a layer's gradients are not negative.
pub open spec fn layer_squares_fit<T: Scalar>(g: ToyLmGrads<T>, l: int) -> bool {
    let zero = T::spec_zero();
    &&& zero.at_most_spec(dot_spec(g.qkv@[l].data@, g.qkv@[l].data@))
    &&& zero.at_most_spec(dot_spec(g.attn_out@[l].data@, g.attn_out@[l].data@))
    &&& zero.at_most_spec(dot_spec(g.ff_up@[l].data@, g.ff_up@[l].data@))
    &&& zero.at_most_spec(dot_spec(g.ff_down@[l].data@, g.ff_down@[l].data@))
    &&& zero.at_most_spec(dot_spec(g.ln1_gain@[l]@, g.ln1_gain@[l]@))
    &&& zero.at_most_spec(dot_spec(g.ln2_gain@[l]@, g.ln2_gain@[l]@))
}

/// Whether the squares of a layer's gradients are not more than `x`.
pub open spec fn layer_squares_below<T: Scalar>(g: ToyLmGrads<T>, l: int, x: T) -> bool {
    &&& dot_spec(g.qkv@[l].data@, g.qkv@[l].data@).at_most_spec(x)
    &&& dot_spec(g.attn_out@[l].data@, g.attn_out@[l].data@).at_most_spec(x)
    &&& dot_spec(g.ff_up@[l].data@, g.ff_up@[l].data@).at_most_spec(x)
    &&& dot_spec(g.ff_down@[l].data@, g.ff_down@[l].data@).at_most_spec(x)
    &&& dot_spec(g.ln1_gain@[l]@, g.ln1_gain@[l]@).at_most_spec(x)
    &&& dot_spec(g.ln2_gain@[l]@, g.ln2_gain@[l]@).at_most_spec(x)
}

proof fn lemma_sum_not_less<T: Scalar>(a: T, b: T)
    requires
        keeps_order::<T>(),
        T::spec_zero().at_most_spec(a),
        T::spec_zero().at_most_spec(b),
    ensures
        T::spec_zero().at_most_spec(a.plus_spec(b)),
        a.at_most_spec(a.plus_spec(b)),
        b.at_most_spec(a.plus_spec(b)),
{
    lemma_plus(a, b, a);
    lemma_chain(T::spec_zero(), a, a.plus_spec(b));
}

proof fn lemma_norm_covers_upto<T: Scalar>(g: ToyLmGrads<T>, n: nat)
    requires
        keeps_order::<T>(),
        T::spec_zero().at_most_spec(dot_spec(g.token_embed.data@, g.token_embed.data@)),
        forall|l: int| 0 <= l < n ==> #[trigger] layer_squares_fit(g, l),
    ensures
        T::spec_zero().at_most_spec(norm_sq_upto(g, n)),
        dot_spec(g.token_embed.data@, g.token_embed.data@).at_most_spec(norm_sq_upto(g, n)),
        forall|l: int| 0 <= l < n ==> #[trigger] layer_squares_below(g, l, norm_sq_upto(g, n)),
    decreases n,
{
    let zero = T::spec_zero();
    let e = dot_spec(g.token_embed.data@, g.token_embed.data@);
    lemma_not_below(zero, zero);
    if n == 0 {
        lemma_sum_not_less(zero, e);
    } else {
        let k = n - 1;
        lemma_norm_covers_upto(g, k as nat);
        assert(layer_squares_fit(g, k));
        let s0 = norm_sq_upto(g, k as nat);
        let a = dot_spec(g.qkv@[k].data@, g.qkv@[k].data@);
        let b = dot_spec(g.attn_out@[k].data@, g.attn_out@[k].data@);
        let c = dot_spec(g.ff_up@[k].data@, g.ff_up@[k].data@);
        let d = dot_spec(g.ff_down@[k].data@, g.ff_down@[k].data@);
        let p = dot_spec(g.ln1_gain@[k]@, g.ln1_gain@[k]@);
        let q = dot_spec(g.ln2_gain@[k]@, g.ln2_gain@[k]@);
        let s1 = s0.plus_spec(a);
        let s2 = s1.plus_spec(b);
        let s3 = s2.plus_spec(c);
        let s4 = s3.plus_spec(d);
        let s5 = s4.plus_spec(p);
        let s6 = s5.plus_spec(q);
        assert(s6 == norm_sq_upto(g, n));
        lemma_sum_not_less(s0, a);
        lemma_sum_not_less(s1, b);
        lemma_sum_not_less(s2, c);
        lemma_sum_not_less(s3, d);
        lemma_sum_not_less(s4, p);
        lemma_sum_not_less(s5, q);
        lemma_chain(s4, s5, s6);
        lemma_chain(s3, s4, s6);
        lemma_chain(s2, s3, s6);
        lemma_chain(s1, s2, s6);
        lemma_chain(s0, s1, s6);
        lemma_chain(p, s5, s6);
        lemma_chain(d, s4, s6);
        lemma_chain(c, s3, s6);
        lemma_chain(b, s2, s6);
        lemma_chain(a, s1, s6);
        lemma_chain(e, s0, s6);
        assert(layer_squares_below(g, k, s6));
        assert forall|l: int| 0 <= l < n implies #[trigger] layer_squares_below(g, l, s6) by {
            if l < k {
                assert(layer_squares_below(g, l, s0));
                lemma_chain(dot_spec(g.qkv@[l].data@, g.qkv@[l].data@), s0, s6);
                lemma_chain(dot_spec(g.attn_out@[l].data@, g.attn_out@[l].data@), s0, s6);
                lemma_chain(dot_spec(g.ff_up@[l].data@, g.ff_up@[l].data@), s0, s6);
                lemma_chain(dot_spec(g.ff_down@[l].data@, g.ff_down@[l].data@), s0, s6);
                lemma_chain(dot_spec(g.ln1_gain@[l]@, g.ln1_gain@[l]@), s0, s6);
                lemma_chain(dot_spec(g.ln2_gain@[l]@, g.ln2_gain@[l]@), s0, s6);
            }
        }
    }
}

/// The norm that gradients are clipped by covers all of them: the squares of no part sum up to
/// more.
pub proof fn law_norm_covers_all<T: Scalar>(g: ToyLmGrads<T>)
    requires
        keeps_order::<T>(),
        T::spec_zero().at_most_spec(dot_spec(g.token_embed.data@, g.token_embed.data@)),
        T::spec_zero().at_most_spec(dot_spec(g.ln_f_gain@, g.ln_f_gain@)),
        forall|l: int| 0 <= l < g.qkv@.len() ==> #[trigger] layer_squares_fit(g, l),
    ensures
        dot_spec(g.token_embed.data@, g.token_embed.data@).at_most_spec(norm_sq_spec(g)),
        dot_spec(g.ln_f_gain@, g.ln_f_gain@).at_most_spec(norm_sq_spec(g)),
        forall|l: int|
            0 <= l < g.qkv@.len() ==> #[trigger] layer_squares_below(g, l, norm_sq_spec(g)),
{
    let n = g.qkv@.len();
    let s = norm_sq_upto(g, n);
    let f = dot_spec(g.ln_f_gain@, g.ln_f_gain@);
    lemma_norm_covers_upto(g, n);
    lemma_sum_not_less(s, f);
    let all = norm_sq_spec(g);
    lemma_chain(dot_spec(g.token_embed.data@, g.token_embed.data@), s, all);
    assert forall|l: int| 0 <= l < n implies #[trigger] layer_squares_below(g, l, all) by {
        assert(layer_squares_below(g, l, s));
        lemma_chain(dot_spec(g.qkv@[l].data@, g.qkv@[l].data@), s, all);
        lemma_chain(dot_spec(g.attn_out@[l].data@, g.attn_out@[l].data@), s, all);
        lemma_chain(dot_spec(g.ff_up@[l].data@, g.ff_up@[l].data@), s, all);
        lemma_chain(dot_spec(g.ff_down@[l].data@, g.ff_down@[l].data@), s, all);
        lemma_chain(dot_spec(g.ln1_gain@[l]@, g.ln1_gain@[l]@), s, all);
        lemma_chain(dot_spec(g.ln2_gain@[l]@, g.ln2_gain@[l]@), s, all);
    }
}

/// A decay of at most one never raises the learning rate, and one of one leaves it alone.
pub proof fn law_learning_rate_decays<T: Scalar>(lr: T, decay: T, epoch: nat)
    requires
        keeps_order::<T>(),
        T::spec_zero().at_most_spec(lr) && finite(lr),
        T::spec_zero().at_most_spec(decay) && decay.at_most_spec(one()),
    ensures
        T::spec_zero().at_most_spec(lr_at(lr, decay, epoch)),
        finite(lr_at(lr, decay, epoch)),
        lr_at(lr, decay, epoch).at_most_spec(lr),
        lr_at(lr, decay, epoch + 1).at_most_spec(lr_at(lr, decay, epoch)),
        one::<T>().at_most_spec(decay) ==> lr.at_most_spec(lr_at(lr, decay, epoch)),
    decreases epoch,
{
    let zero = T::spec_zero();
    let o = one::<T>();
    lemma_not_below(zero, o);
    lemma_not_below(lr, lr);
    lemma_between_finite(zero, decay, o);
    if epoch > 0 {
        law_learning_rate_decays(lr, decay, (epoch - 1) as nat);
        let x = lr_at(lr, decay, (epoch - 1) as nat);
        let y = x.times_spec(decay);
        lemma_product_not_negative(x, decay);
        lemma_chain(y, x, lr);
        lemma_between_finite(zero, y, lr);
        if o.at_most_spec(decay) {
            lemma_times(x, x, decay);
            lemma_chain(lr, x, y);
        }
    }
    let y = lr_at(lr, decay, epoch);
    lemma_times(decay, o, y);
    lemma_times(y, y, o);
    assert(lr_at(lr, decay, epoch + 1) == y.times_spec(decay));
    lemma_chain(y.times_spec(decay), y.times_spec(o), y);
}

/// Training by gradient descent predicts each token's successor: step `k` learns from the
/// tokens of a window, and the target at each place is the token that comes next in the corpus.
/// The learning rate decays after every pass through the windows.
pub proof fn law_targets_are_successors<T: Scalar>(
    t: SgdTrainer<T>,
    ids: Seq<u32>,
    models: Seq<ToyLm<T>>,
    vels: Seq<ToyLmGrads<T>>,
    k: int,
)
    requires
        sgd_step_at(t, ids, models, vels, k),
        0 <= k,
        ids.len() > t.config.seq_len + 1,
    ensures
        exists|tokens: Seq<u32>, targets: Seq<u32>, lr: T| #[trigger]
            descended(
                models[k],
                vels[k],
                models[k + 1],
                vels[k + 1],
                tokens,
                targets,
                lr,
                t.momentum,
                t.max_grad_norm,
            ) && successors_of(ids, tokens, targets, t.config.seq_len as int, k) && lr == lr_at(
                t.config.learning_rate,
                t.config.lr_decay,
                (k / (ids.len() - t.config.seq_len - 1)) as nat,
            ),
{
    let seq = t.config.seq_len as int;
    let windows = num_windows(ids.len() as int, seq);
    let tokens = window(ids, k % windows, seq);
    let targets = window(ids, k % windows + 1, seq);
    let lr = lr_at(t.config.learning_rate, t.config.lr_decay, (k / windows) as nat);
    assert(0 <= k % windows < windows) by (nonlinear_arith)
        requires
            0 <= k,
            windows > 0,
    ;
    assert(successors_of(ids, tokens, targets, seq, k));
    assert(descended(
        models[k],
        vels[k],
        models[k + 1],
        vels[k + 1],
        tokens,
        targets,
        lr,
        t.momentum,
        t.max_grad_norm,
    ));
}

/// Whether `tokens` are `seq` tokens in a row, and `targets` those one place later. The windows
/// are gone through one after the other and again from the first.
pub open spec fn successors_of(
    ids: Seq<u32>,
    tokens: Seq<u32>,
    targets: Seq<u32>,
    seq: int,
    k: int,
) -> bool {
    let start = k % (ids.len() - seq - 1);
    &&& tokens.len() == seq && targets.len() == seq
    &&& forall|i: int| 0 <= i < seq ==> #[trigger] tokens[i] == ids[start + i]
    &&& forall|i: int| 0 <= i < seq ==> #[trigger] targets[i] == ids[start + i + 1]
}

/// Sparse training predicts each token's successor too.
pub proof fn law_sparse_targets_are_successors<T: Scalar>(
    cfg: LshSparseConfig<T>,
    ids: Seq<u32>,
    models: Seq<ToyLm<T>>,
    vels: Seq<ToyLmGrads<T>>,
    k: int,
)
    requires
        lsh_step_at(cfg, ids, models, vels, k),
        0 <= k,
        ids.len() > cfg.seq_len + 1,
    ensures
        exists|tokens: Seq<u32>, targets: Seq<u32>, lr: T| #[trigger]
            descended_sparse(
                models[k],
                vels[k],
                models[k + 1],
                vels[k + 1],
                tokens,
                targets,
                lr,
                cfg,
            ) && successors_of(ids, tokens, targets, cfg.seq_len as int, k) && lr == lr_at(
                cfg.learning_rate,
                cfg.lr_decay,
                (k / (ids.len() - cfg.seq_len - 1)) as nat,
            ),
{
    let seq = cfg.seq_len as int;
    let windows = num_windows(ids.len() as int, seq);
    let tokens = window(ids, k % windows, seq);
    let targets = window(ids, k % windows + 1, seq);
    let lr = lr_at(cfg.learning_rate, cfg.lr_decay, (k / windows) as nat);
    assert(0 <= k % windows < windows) by (nonlinear_arith)
        requires
            0 <= k,
            windows > 0,
    ;
    assert(successors_of(ids, tokens, targets, seq, k));
    assert(descended_sparse(
        models[k],
        vels[k],
        models[k + 1],
        vels[k + 1],
        tokens,
        targets,
        lr,
        cfg,
    ));
}

/// A write stores under a window of the corpus the token that comes right behind it, and goes
/// through the slots one after the other.
pub proof fn law_writes_store_successors<T: Scalar>(
    cfg: HopfieldConfig<T>,
    ids: Seq<u32>,
    models: Seq<ToyLm<T>>,
    k: int,
)
    requires
        write_at(cfg, ids, models, k),
        0 <= k,
        ids.len() > cfg.seq_len + 1,
        models[k].config.ff_dim > 0,
    ensures
        exists|tokens: Seq<u32>, target: u32| #[trigger]
            wrote(
                models[k],
                models[k + 1],
                tokens,
                target,
                k % (models[k].config.ff_dim as int),
                cfg.value_scale,
            ) && tokens.len() == cfg.seq_len && (forall|i: int|
                0 <= i < cfg.seq_len ==> #[trigger] tokens[i] == ids[k % (ids.len() - cfg.seq_len
                    - 1) + i]) && target == ids[k % (ids.len() - cfg.seq_len - 1) + cfg.seq_len],
{
    let seq = cfg.seq_len as int;
    let windows = num_windows(ids.len() as int, seq);
    let start = k % windows;
    assert(0 <= k % windows < windows) by (nonlinear_arith)
        requires
            0 <= k,
            windows > 0,
    ;
    let tokens = window(ids, start, seq);
    assert(wrote(
        models[k],
        models[k + 1],
        tokens,
        ids[start + seq],
        k % (models[k].config.ff_dim as int),
        cfg.value_scale,
    ));
}

/// Forward-forward training contrasts a window with a negative of it: the window is one of the
/// corpus, and the negative has its tokens in another order.
pub proof fn law_contrasts_windows<T: Scalar>(
    cfg: ForwardForwardConfig<T>,
    ids: Seq<u32>,
    states: Seq<FfState<T>>,
    k: int,
)
    requires
        ff_step_at(cfg, ids, states, k),
        0 <= k,
        ids.len() > cfg.seq_len + 1,
    ensures
        exists|pos: Seq<u32>, neg: Seq<u32>, lr: T, hebb_lr: T| #[trigger]
            ff_stepped(
                (states[k].model, states[k].vel, states[k].stats),
                (states[k + 1].model, states[k + 1].vel, states[k + 1].stats),
                pos,
                neg,
                lr,
                hebb_lr,
                cfg,
            ) && pos.len() == cfg.seq_len && (forall|i: int|
                0 <= i < cfg.seq_len ==> #[trigger] pos[i] == ids[k % (ids.len() - cfg.seq_len - 1)
                    + i]) && neg.to_multiset() == pos.to_multiset() && lr == lr_at(
                cfg.learning_rate,
                cfg.lr_decay,
                (k / (ids.len() - cfg.seq_len - 1)) as nat,
            ) && hebb_lr == lr_at(
                cfg.hebbian_embed_lr,
                cfg.lr_decay,
                (k / (ids.len() - cfg.seq_len - 1)) as nat,
            ),
{
    let seq = cfg.seq_len as int;
    let windows = num_windows(ids.len() as int, seq);
    assert(0 <= k % windows < windows) by (nonlinear_arith)
        requires
            0 <= k,
            windows > 0,
    ;
    let pos = step_window(cfg, ids, k);
    let neg = step_negative(cfg, ids, k);
    let epoch = (k / windows) as nat;
    assert(is_negative_of(neg, pos));
    assert(ff_stepped(
        (states[k].model, states[k].vel, states[k].stats),
        (states[k + 1].model, states[k + 1].vel, states[k + 1].stats),
        pos,
        neg,
        lr_at(cfg.learning_rate, cfg.lr_decay, epoch),
        lr_at(cfg.hebbian_embed_lr, cfg.lr_decay, epoch),
        cfg,
    ));
}

/// The logistic function lies between zero and one, and grows.
pub proof fn law_sigmoid<T: Scalar>(x: T, y: T)
    requires
        keeps_order::<T>(),
        x.at_most_spec(y),
        forall|a: T, b: T|
            one::<T>().at_most_spec(a) && a.at_most_spec(b) ==> (#[trigger] one::<T>().over_spec(
                b,
            )).at_most_spec(#[trigger] one::<T>().over_spec(a)),
    ensures
        T::spec_zero().at_most_spec(sigmoid_spec(x)),
        sigmoid_spec(x).at_most_spec(one()),
        sigmoid_spec(x).at_most_spec(sigmoid_spec(y)),
{
    let o = one::<T>();
    let (nx, ny) = (x.negated_spec(), y.negated_spec());
    lemma_not_below(x, y);
    lemma_negated(x, y);
    lemma_not_below(ny, nx);
    lemma_exp(ny, nx);
    lemma_exp(nx, nx);
    let (a, b) = (o.plus_spec(ny.exp_spec()), o.plus_spec(nx.exp_spec()));
    lemma_not_below(o, o);
    lemma_plus(ny.exp_spec(), nx.exp_spec(), o);
    lemma_plus(o, nx.exp_spec(), o);
    lemma_exp(ny, ny);
    lemma_plus(o, ny.exp_spec(), o);
    lemma_inverse(b);
}

/// Forward-forward training raises the goodness of real windows and lowers that of negative
/// ones: a step against the gradients goes up on the first and down on the second.
pub proof fn law_goodness_contrast<T: Scalar>(stat: LayerStat<T>, pos: T, neg: T)
    requires
        keeps_order::<T>(),
        finite(stat.theta),
        pos.at_most_spec(pos),
        neg.at_most_spec(neg),
        forall|a: T, b: T|
            one::<T>().at_most_spec(a) && a.at_most_spec(b) ==> (#[trigger] one::<T>().over_spec(
                b,
            )).at_most_spec(#[trigger] one::<T>().over_spec(a)),
    ensures
        coeffs_spec(stat, Homeostasis::Raw, pos, neg).0.at_most_spec(T::spec_zero()),
        T::spec_zero().at_most_spec(coeffs_spec(stat, Homeostasis::Raw, pos, neg).1),
{
    let zero = T::spec_zero();
    let x = stat.theta.minus_spec(pos);
    let y = neg.minus_spec(stat.theta);
    lemma_minus(pos, pos, stat.theta);
    lemma_minus(neg, neg, stat.theta);
    law_sigmoid(x, x);
    law_sigmoid(y, y);
    lemma_negated(zero, sigmoid_spec(x));
    lemma_chain(sigmoid_spec(x).negated_spec(), zero.negated_spec(), zero);
}

/// The better a real window already is, the less it is pushed; the better a negative one is,
/// the more.
pub proof fn law_goodness_pressure<T: Scalar>(stat: LayerStat<T>, low: T, high: T)
    requires
        keeps_order::<T>(),
        finite(stat.theta),
        low.at_most_spec(high),
        forall|a: T, b: T|
            one::<T>().at_most_spec(a) && a.at_most_spec(b) ==> (#[trigger] one::<T>().over_spec(
                b,
            )).at_most_spec(#[trigger] one::<T>().over_spec(a)),
    ensures
        coeffs_spec(stat, Homeostasis::Raw, low, low).0.at_most_spec(
            coeffs_spec(stat, Homeostasis::Raw, high, low).0,
        ),
        coeffs_spec(stat, Homeostasis::Raw, low, low).1.at_most_spec(
            coeffs_spec(stat, Homeostasis::Raw, low, high).1,
        ),
{
    let t = stat.theta;
    lemma_minus(low, high, t);
    law_sigmoid(t.minus_spec(high), t.minus_spec(low));
    law_sigmoid(low.minus_spec(t), high.minus_spec(t));
    lemma_negated(sigmoid_spec(t.minus_spec(high)), sigmoid_spec(t.minus_spec(low)));
}

/// The threshold follows the goodness: once it has reached it, it stays there.
pub proof fn law_threshold_settles<T: Scalar>(stat: LayerStat<T>, ema: T, h: Homeostasis)
    requires
        computes_exactly::<T>(),
    ensures
        h is Raw ==> next_stat(stat, h, ema, stat.theta).theta == stat.theta,
        h is LayerNorm ==> next_stat(stat, h, ema, stat.mean).mean == stat.mean && next_stat(
            stat,
            h,
            ema,
            stat.mean,
        ).theta == stat.mean && next_stat(stat, h, ema, stat.mean).var == ema.times_spec(stat.var),
{
    let o = one::<T>();
    let zero = T::spec_zero();
    let x = if h is Raw {
        stat.theta
    } else {
        stat.mean
    };
    let rest = o.minus_spec(ema);
    // ema x + (1 - ema) x = x.
    lemma_swap(ema, x);
    lemma_swap(rest, x);
    lemma_mul(x, ema, rest);
    lemma_add(o, ema, zero);
    lemma_add(ema, o, zero.minus_spec(ema));
    lemma_add(o, ema, zero.minus_spec(ema));
    lemma_add(ema, rest, zero);
    lemma_opposite(ema, ema);
    lemma_plus_zero(o);
    lemma_add(o, zero, zero);
    lemma_add(o, zero.minus_spec(ema), ema);
    lemma_add(zero.minus_spec(ema), ema, zero);
    lemma_swap(x, o);
    lemma_div(x, x, 0);
    lemma_mul(rest, rest, rest);
    let z = rest.times_spec(zero);
    lemma_swap(z, zero);
    lemma_mul(zero, zero, zero);
    lemma_plus_zero(ema.times_spec(stat.var));
}

/// The gradient of the goodness points along the activations: twice the
/// goodness is the inner product of both.
pub proof fn law_goodness_gradient<T: Scalar>(y: Seq<T>)
    requires
        computes_exactly::<T>(),
        0 < y.len() <= usize::MAX,
    ensures
        dot_spec(goodness_grad(y), y) == two::<T>().times_spec(goodness_spec(y)),
{
    let n = T::spec_count(y.len() as usize);
    let inv = one::<T>().over_spec(n);
    let f = inv.times_spec(two::<T>());
    let p = products(goodness_grad(y), y);
    let q = products(y, y);
    assert forall|i: int| 0 <= i < y.len() implies #[trigger] p[i] == f.times_spec(q[i]) by {
        let v = y[i];
        let tv = two::<T>().times_spec(v);
        lemma_div(tv, n, 0);
        lemma_swap(tv, inv);
        lemma_mul(inv, two::<T>(), v);
        lemma_mul(f, v, v);
    }
    lemma_sum_scales(f, q, p, y.len());
    assert(p.len() == y.len() && q.len() == y.len());
    let s = dot_spec(y, y);
    lemma_div(s, n, 0);
    lemma_swap(inv, two::<T>());
    lemma_mul(two::<T>(), inv, s);
    lemma_swap(inv, s);
}

/// A row scaled to length one has that length, and points the way the row does: its inner
/// product with the row is the row's length.
pub proof fn law_unit_row<T: Scalar>(row: Seq<T>)
    requires
        computes_exactly::<T>(),
        ({
            let s = dot_spec(row, row);
            let r = s.root_spec();
            &&& r.times_spec(r) == s
            &&& r.times_spec(one::<T>().over_spec(r)) == one::<T>()
            &&& T::spec_zero().below_spec(r)
        }),
    ensures
        dot_spec(unit(row), unit(row)) == one::<T>(),
        dot_spec(unit(row), row) == dot_spec(row, row).root_spec(),
{
    let n = row.len();
    let q = products(row, row);
    assert(q =~= squares(row));
    let s = dot_spec(row, row);
    let r = s.root_spec();
    assert(norm_spec(row) == r);
    let inv = one::<T>().over_spec(r);
    let u = unit(row);
    let p = products(u, u);
    let m = products(u, row);
    let i2 = inv.times_spec(inv);
    assert forall|i: int| 0 <= i < n implies #[trigger] p[i] == i2.times_spec(q[i]) by {
        let v = row[i];
        lemma_div(v, r, 0);
        lemma_swap(v, inv);
        let iv = inv.times_spec(v);
        lemma_mul(inv, v, iv);
        lemma_swap(v, iv);
        lemma_mul(inv, v, v);
        lemma_mul(inv, inv, v.times_spec(v));
    }
    assert forall|i: int| 0 <= i < n implies #[trigger] m[i] == inv.times_spec(q[i]) by {
        let v = row[i];
        lemma_div(v, r, 0);
        lemma_swap(v, inv);
        lemma_mul(inv, v, v);
    }
    lemma_sum_scales(i2, q, p, n);
    lemma_sum_scales(inv, q, m, n);
    assert(p.len() == n && m.len() == n && q.len() == n);
    // inv (r r) = r, and inv inv (r r) = one.
    lemma_swap(inv, r);
    lemma_mul(inv, r, r);
    lemma_div(r, r, 0);
    lemma_mul(inv, inv, s);
}

/// The share that the threshold keeps: with all of it kept it never moves, with none of it kept
/// it is the last goodness.
pub proof fn law_threshold_share<T: Scalar>(stat: LayerStat<T>, pos: T)
    requires
        computes_exactly::<T>(),
    ensures
        next_stat(stat, Homeostasis::Raw, one(), pos).theta == stat.theta,
        next_stat(stat, Homeostasis::Raw, T::spec_zero(), pos).theta == pos,
        next_stat(stat, Homeostasis::LayerNorm, one(), pos).mean == stat.mean,
        next_stat(stat, Homeostasis::LayerNorm, T::spec_zero(), pos).mean == pos,
{
    let o = one::<T>();
    let zero = T::spec_zero();
    lemma_div(o, o, 0);
    lemma_div(stat.theta, o, 0);
    lemma_div(stat.mean, o, 0);
    lemma_div(pos, o, 0);
    lemma_plus_zero(o);
    lemma_swap(zero, pos);
    lemma_mul(pos, pos, pos);
    lemma_swap(zero, stat.theta);
    lemma_mul(stat.theta, stat.theta, stat.theta);
    lemma_swap(zero, stat.mean);
    lemma_mul(stat.mean, stat.mean, stat.mean);
    lemma_plus_zero(stat.theta);
    lemma_plus_zero(stat.mean);
    lemma_plus_zero(pos);
}

/// A block's output, whose goodness is trained, is the hidden state behind the layer.
pub proof fn law_block_output<T: Scalar>(cache: ForwardCache<T>, lm: ToyLm<T>, l: int)
    requires
        lm.wf(),
        cached(cache, lm),
        0 <= l < lm.config.num_layers,
        lm.config.dim > 0,
    ensures
        rows_of(output_of(cache.layers@[l]), cache.tokens@.len(), lm.config.dim as nat) == hidden(
            lm.weights,
            lm.config,
            cache.tokens@,
            (l + 1) as nat,
        ),
{
    let w = lm.weights;
    let c = lm.config;
    let d = c.dim as nat;
    let lc = cache.layers@[l];
    let x = hidden(w, c, cache.tokens@, l as nat);
    assert(layer_cached(lc, w, c, l, x));
    let x1 = after_attention(w, c, l, x);
    let down = applied_rows(
        w.ff_down@[l],
        gelu_rows(applied_rows(w.ff_up@[l], norm_rows(x1, w.ln2_gain@[l]@))),
    );
    lemma_added_rows(lc.ln2_in@, lc.ff_down_out@, d, x1, down);
    let out = output_of(lc);
    lemma_hidden_len(w, c, cache.tokens@, l as nat);
    lemma_rows_read(out, d, added_rows(x1, down));
}

/// What a write stores under a window is found by the same window again: the inner product of
/// the stored key with the state that the memory is asked for is the length of that state, the
/// most that any key of length one can have.
pub proof fn law_key_matches_its_state<T: Scalar>(
    cache: ForwardCache<T>,
    lm: ToyLm<T>,
    l: int,
)
    requires
        computes_exactly::<T>(),
        lm.wf(),
        cached(cache, lm),
        0 <= l < lm.config.num_layers,
        cache.tokens@.len() > 0,
        ({
            let q = part_inputs(lm, cache.tokens@, l, Part::FfUp)[cache.tokens@.len() - 1];
            let r = dot_spec(q, q).root_spec();
            &&& r.times_spec(r) == dot_spec(q, q)
            &&& r.times_spec(one::<T>().over_spec(r)) == one::<T>()
            &&& T::spec_zero().below_spec(r)
        }),
    ensures
        ({
            let q = part_inputs(lm, cache.tokens@, l, Part::FfUp)[cache.tokens@.len() - 1];
            &&& dot_spec(key_of(cache, lm.config, l), q) == dot_spec(q, q).root_spec()
            &&& dot_spec(key_of(cache, lm.config, l), key_of(cache, lm.config, l)) == one::<T>()
        }),
{
    let w = lm.weights;
    let c = lm.config;
    let n = cache.tokens@.len();
    let x = hidden(w, c, cache.tokens@, l as nat);
    let lc = cache.layers@[l];
    assert(layer_cached(lc, w, c, l, x));
    lemma_hidden_len(w, c, cache.tokens@, l as nat);
    let h2 = norm_rows(after_attention(w, c, l, x), w.ln2_gain@[l]@);
    assert(row_of(lc.ln2_out@, c.dim as int, n - 1) == h2[n - 1]);
    law_unit_row(h2[n - 1]);
}

/// The value that a write stores points to the embedding of the token, and has the given
/// length.
pub proof fn law_written_value<T: Scalar>(w: ToyLmWeights<T>, target: u32, scale: T)
    requires
        computes_exactly::<T>(),
        ({
            let e = w.token_embed.row_seq(target as int);
            let r = dot_spec(e, e).root_spec();
            &&& r.times_spec(r) == dot_spec(e, e)
            &&& r.times_spec(one::<T>().over_spec(r)) == one::<T>()
            &&& T::spec_zero().below_spec(r)
        }),
    ensures
        ({
            let e = w.token_embed.row_seq(target as int);
            let v = value_of(w, target, scale);
            &&& dot_spec(v, v) == scale.times_spec(scale)
            &&& dot_spec(e, v) == scale.times_spec(dot_spec(e, e).root_spec())
        }),
{
    let e = w.token_embed.row_seq(target as int);
    let u = unit(e);
    let v = value_of(w, target, scale);
    law_unit_row(e);
    law_dot_linear(e, u, u, scale);
    law_dot_linear(v, u, u, scale);
    law_dot_linear(u, u, u, scale);
    assert(v =~= Seq::new(e.len(), |i: int| scale.times_spec(u[i])));
    law_dot_symmetric(e, u);
    law_dot_symmetric(v, u);
    lemma_swap(scale, one::<T>());
    lemma_div(scale, scale, 0);
}

/// The association leaves alone the embeddings of tokens that follow no other in the window.
pub proof fn law_association_is_local<T: Scalar>(
    embed: Matrix<T>,
    tokens: Seq<u32>,
    xf: Seq<T>,
    lr: T,
    w: int,
    j: int,
)
    requires
        tokens.len() > 0,
        0 <= w < embed.rows,
        0 <= j < embed.cols,
        forall|t: int|
            1 <= t < tokens.len() ==> clamped_token(#[trigger] tokens[t], embed.rows as int) != w,
    ensures
        associated(embed, tokens, xf, lr)[w][j] == embed.row_seq(w)[j],
{
    let n = (tokens.len() - 1) as nat;
    let d = embed.cols as nat;
    let moves = rows_of(scaled_all(xf.subrange(0, (n * d) as int), lr), n, d);
    lemma_no_moves(embed.row_seq(w)[j], tokens.skip(1), moves, embed.rows as int, w, j, n);
}

proof fn lemma_no_moves<T: Scalar>(
    head: T,
    tokens: Seq<u32>,
    dx: Seq<Seq<T>>,
    vocab: int,
    w: int,
    j: int,
    n: nat,
)
    requires
        n <= tokens.len(),
        forall|t: int| 0 <= t < n ==> clamped_token(#[trigger] tokens[t], vocab) != w,
    ensures
        embed_grad_upto(head, tokens, dx, vocab, w, j, n) == head,
    decreases n,
{
    if n > 0 {
        lemma_no_moves(head, tokens, dx, vocab, w, j, (n - 1) as nat);
    }
}

/// The association moves the embedding of a token towards the state in front of it: a number
/// whose counterpart in that state is not negative does not fall.
pub proof fn law_association_moves_towards_state<T: Scalar>(
    embed: Matrix<T>,
    first: u32,
    next: u32,
    xf: Seq<T>,
    lr: T,
    j: int,
)
    requires
        keeps_order::<T>(),
        next < embed.rows,
        0 <= j < embed.cols,
        xf.len() >= embed.cols,
        finite(lr) && T::spec_zero().at_most_spec(lr),
        finite(xf[j]),
        finite(embed.row_seq(next as int)[j]),
        finite(lr.times_spec(xf[j])),
    ensures
        associated(embed, seq![first, next], xf, lr)[next as int][j]
            == embed.row_seq(next as int)[j].plus_spec(lr.times_spec(xf[j])),
        T::spec_zero().at_most_spec(xf[j]) ==> embed.row_seq(next as int)[j].at_most_spec(
            associated(embed, seq![first, next], xf, lr)[next as int][j],
        ),
{
    let tokens = seq![first, next];
    let d = embed.cols as nat;
    let n = 1nat;
    assert(n * d == d) by (nonlinear_arith)
        requires
            n == 1,
    ;
    let moves = rows_of(scaled_all(xf.subrange(0, (n * d) as int), lr), n, d);
    let head = embed.row_seq(next as int)[j];
    let later = tokens.skip(1);
    assert(later[0] == next);
    let x = lr.times_spec(xf[j]);
    assert(moves[0][j] == x) by {
        assert(0 * d == 0) by (nonlinear_arith);
    }
    assert(embed_grad_upto(head, later, moves, embed.rows as int, next as int, j, 0) == head);
    assert(embed_grad_upto(head, later, moves, embed.rows as int, next as int, j, 1)
        == head.plus_spec(x));
    if T::spec_zero().at_most_spec(xf[j]) {
        let zero = T::spec_zero();
        lemma_not_below(zero, zero);
        lemma_product_not_negative(lr, xf[j]);
        lemma_plus(zero, x, head);
        lemma_plus(head, zero, head);
        lemma_chain(head, head.plus_spec(zero), head.plus_spec(x));
    }
}

/// The goodness is a mean: as often as there are activations it is the sum of their squares.
pub proof fn law_goodness_is_mean<T: Scalar>(y: Seq<T>)
    requires
        computes_exactly::<T>(),
        0 < y.len() <= usize::MAX,
    ensures
        goodness_spec(y).times_spec(T::spec_count(y.len() as usize)) == dot_spec(y, y),
{
    lemma_count_quotient(dot_spec(y, y), y.len() as usize);
}

/// With normalised goodness too, a step goes up on real windows and down on negative ones.
pub proof fn law_normalised_goodness_contrast<T: Scalar>(stat: LayerStat<T>, pos: T, neg: T)
    requires
        keeps_order::<T>(),
        finite(spread_spec(stat.var)),
        T::spec_zero().below_spec(spread_spec(stat.var)),
        finite(pos.minus_spec(stat.mean)),
        finite(neg.minus_spec(stat.mean)),
        forall|a: T, b: T|
            one::<T>().at_most_spec(a) && a.at_most_spec(b) ==> (#[trigger] one::<T>().over_spec(
                b,
            )).at_most_spec(#[trigger] one::<T>().over_spec(a)),
    ensures
        coeffs_spec(stat, Homeostasis::LayerNorm, pos, neg).0.at_most_spec(T::spec_zero()),
        T::spec_zero().at_most_spec(coeffs_spec(stat, Homeostasis::LayerNorm, pos, neg).1),
{
    let zero = T::spec_zero();
    let s = spread_spec(stat.var);
    let (dp, dn) = (pos.minus_spec(stat.mean), neg.minus_spec(stat.mean));
    let (p, n) = (dp.over_spec(s), dn.over_spec(s));
    lemma_not_below(zero, one::<T>());
    lemma_not_below(dp, dp);
    lemma_not_below(dn, dn);
    lemma_over(dp, dp, s);
    lemma_over(dn, dn, s);
    let (x, y) = (zero.minus_spec(p), n.minus_spec(zero));
    lemma_minus(p, p, zero);
    lemma_minus(n, n, zero);
    law_sigmoid(x, x);
    law_sigmoid(y, y);
    let (a, b) = (sigmoid_spec(x), sigmoid_spec(y));
    lemma_between_finite(zero, a, one::<T>());
    lemma_between_finite(zero, b, one::<T>());
    lemma_negated(zero, a);
    lemma_negated(a, a);
    lemma_chain(a.negated_spec(), zero.negated_spec(), zero);
    lemma_over(a.negated_spec(), zero, s);
    lemma_over(zero, b, s);
    lemma_chain(a.negated_spec().over_spec(s), zero.over_spec(s), zero);
    lemma_chain(zero, zero.over_spec(s), b.over_spec(s));
}

/// The gradients of a layer are those that raise the goodness of the real window, and those that
/// lower the goodness of the negative window, together.
pub proof fn law_gradients_contrast<T: Scalar>(
    g: ToyLmGrads<T>,
    lm: ToyLm<T>,
    pos: ForwardCache<T>,
    neg: ForwardCache<T>,
    stats: Thresholds<T>,
    l: int,
)
    requires
        keeps_order::<T>(),
        layer_local(g, lm, pos, neg, stats, Homeostasis::Raw, l),
        finite(stats.stat(l).theta),
        finite(goodness_spec(output_of(pos.layers@[l]))),
        finite(goodness_spec(output_of(neg.layers@[l]))),
        forall|a: T, b: T|
            one::<T>().at_most_spec(a) && a.at_most_spec(b) ==> (#[trigger] one::<T>().over_spec(
                b,
            )).at_most_spec(#[trigger] one::<T>().over_spec(a)),
    ensures
        exists|a: LayerGrads<T>, b: LayerGrads<T>, up: T, down: T|
            {
                &&& up.at_most_spec(T::spec_zero())
                &&& T::spec_zero().at_most_spec(down)
                &&& #[trigger] layer_grads_are(
                    a,
                    lm.weights,
                    lm.config,
                    l,
                    pos.layers@[l],
                    rows_of(
                        scaled_all(goodness_grad(output_of(pos.layers@[l])), up),
                        pos.tokens@.len(),
                        lm.config.dim as nat,
                    ),
                )
                &&& #[trigger] layer_grads_are(
                    b,
                    lm.weights,
                    lm.config,
                    l,
                    neg.layers@[l],
                    rows_of(
                        scaled_all(goodness_grad(output_of(neg.layers@[l])), down),
                        neg.tokens@.len(),
                        lm.config.dim as nat,
                    ),
                )
                &&& layer_sums(g, l, a, b)
            },
{
    let stat = stats.stat(l);
    let (x, y) = (
        goodness_spec(output_of(pos.layers@[l])),
        goodness_spec(output_of(neg.layers@[l])),
    );
    lemma_not_below(x, x);
    lemma_not_below(y, y);
    law_goodness_contrast(stat, x, y);
    let (a, b) = choose|a: LayerGrads<T>, b: LayerGrads<T>| #[trigger]
        layer_parts(g, lm, pos, neg, stats, Homeostasis::Raw, l, a, b);
    let (up, down) = coeffs_spec(stat, Homeostasis::Raw, x, y);
    assert(layer_parts(g, lm, pos, neg, stats, Homeostasis::Raw, l, a, b));
    assert(layer_grads_are(
        a,
        lm.weights,
        lm.config,
        l,
        pos.layers@[l],
        rows_of(
            scaled_all(goodness_grad(output_of(pos.layers@[l])), up),
            pos.tokens@.len(),
            lm.config.dim as nat,
        ),
    ));
    assert(layer_grads_are(
        b,
        lm.weights,
        lm.config,
        l,
        neg.layers@[l],
        rows_of(
            scaled_all(goodness_grad(output_of(neg.layers@[l])), down),
            neg.tokens@.len(),
            lm.config.dim as nat,
        ),
    ));
}

/// Both gradients of a layer count in full.
pub proof fn law_gradients_add<T: Scalar>(a: Seq<T>, b: Seq<T>, i: int)
    requires
        computes_exactly::<T>(),
        0 <= i < a.len(),
        b.len() == a.len(),
    ensures
        sum_of_two(a, b).len() == a.len(),
        sum_of_two(a, b)[i] == a[i].plus_spec(b[i]),
{
    lemma_plus_zero(a[i]);
}

/// A weight within the limit is left alone.
pub proof fn law_clamping_keeps_inside<T: Scalar>(w: T, limit: T)
    requires
        keeps_order::<T>(),
        limit.negated_spec().at_most_spec(w),
        w.at_most_spec(limit),
    ensures
        clamped(w, limit) == w,
{
    lemma_not_below(limit.negated_spec(), w);
    lemma_not_below(w, limit);
}

/// The smaller the fraction of rows that is trained, the more buckets there are.
pub proof fn law_fewer_rows_more_bits<T: Scalar>(low: T, high: T)
    requires
        keeps_order::<T>(),
        low.at_most_spec(high),
        T::spec_zero().below_spec(one::<T>().over_spec(T::spec_count(1000000))),
        one::<T>().over_spec(T::spec_count(1000000)).at_most_spec(one()),
        forall|a: T, b: T|
            T::spec_zero().below_spec(a) && a.at_most_spec(b) && b.at_most_spec(one())
                ==> T::spec_zero().below_spec(one::<T>().over_spec(b)) && (#[trigger] one::<
                T,
            >().over_spec(b)).at_most_spec(#[trigger] one::<T>().over_spec(a)),
        forall|a: T, b: T|
            T::spec_zero().below_spec(a) && a.at_most_spec(b) ==> (#[trigger] a.log2_spec())
                .at_most_spec(#[trigger] b.log2_spec()),
        forall|a: T, b: T|
            a.at_most_spec(b) ==> #[trigger] a.rounded_spec() <= #[trigger] b.rounded_spec(),
    ensures
        1 <= bits_for(high) <= bits_for(low) <= 16,
{
    let zero = T::spec_zero();
    let o = one::<T>();
    let least = o.over_spec(T::spec_count(1000000));
    let (a, b) = (clamped_fraction(low), clamped_fraction(high));
    lemma_not_below(low, high);
    lemma_not_below(low, least);
    lemma_not_below(least, low);
    lemma_not_below(high, least);
    lemma_not_below(least, high);
    lemma_not_below(low, o);
    lemma_not_below(o, low);
    lemma_not_below(high, o);
    lemma_not_below(o, high);
    lemma_not_below(least, o);
    lemma_not_below(zero, o);
    if least.at_most_spec(low) {
        lemma_chain(least, low, high);
    }
    if o.at_most_spec(low) {
        lemma_chain(o, low, high);
    }
    assert(a.at_most_spec(b) && least.at_most_spec(a) && b.at_most_spec(o));
    lemma_positive(least, a);
    let (x, y) = (o.over_spec(b), o.over_spec(a));
    assert(x.at_most_spec(y));
    assert(x.log2_spec().at_most_spec(y.log2_spec()));
    assert(x.log2_spec().rounded_spec() <= y.log2_spec().rounded_spec());
}

/// The variance of the goodness follows the squared distances to the mean.
pub proof fn law_variance_follows<T: Scalar>(stat: LayerStat<T>, ema: T, pos: T)
    requires
        computes_exactly::<T>(),
    ensures
        ({
            let d = pos.minus_spec(stat.mean);
            next_stat(stat, Homeostasis::LayerNorm, ema, pos).var == ema.times_spec(
                stat.var.plus_spec(one::<T>().minus_spec(ema).times_spec(d.times_spec(d))),
            )
        }),
{
    let zero = T::spec_zero();
    let o = one::<T>();
    let rest = o.minus_spec(ema);
    let d = pos.minus_spec(stat.mean);
    let mean = ema.times_spec(stat.mean).plus_spec(rest.times_spec(pos));
    // What is kept and the rest make up the whole.
    let ne = zero.minus_spec(ema);
    lemma_add(o, ema, ema);
    lemma_opposite(ema, ne);
    lemma_add(ema, o, ne);
    lemma_add(o, ema, ne);
    lemma_plus_zero(o);
    assert(ema.plus_spec(rest) == o);
    lemma_swap(ema, pos);
    lemma_swap(rest, pos);
    lemma_mul(pos, ema, rest);
    lemma_swap(pos, o);
    lemma_div(pos, pos, 0);
    assert(ema.times_spec(pos).plus_spec(rest.times_spec(pos)) == pos);
    // The distance to the new mean is what is kept of that to the old one.
    lemma_shifted_difference(
        ema.times_spec(pos),
        ema.times_spec(stat.mean),
        rest.times_spec(pos),
    );
    lemma_add(pos, stat.mean, zero);
    lemma_mul(ema, pos, zero.minus_spec(stat.mean));
    lemma_negative_factor(ema, stat.mean);
    lemma_add(ema.times_spec(pos), ema.times_spec(stat.mean), zero);
    assert(pos.minus_spec(mean) == ema.times_spec(d));
    let x = rest.times_spec(d);
    lemma_mul(x, ema, d);
    lemma_swap(x, ema);
    lemma_mul(ema, x, d);
    lemma_mul(rest, d, d);
    lemma_mul(ema, stat.var, rest.times_spec(d.times_spec(d)));
}

/// The spread of the goodness is its standard deviation: its square is the variance and a
/// millionth.
pub proof fn law_spread<T: Scalar>(var: T)
    requires
        T::spec_zero().below_spec(var),
        forall|x: T| (#[trigger] x.root_spec()).times_spec(x.root_spec()) == x,
    ensures
        spread_spec(var).times_spec(spread_spec(var)) == var.plus_spec(
            one::<T>().over_spec(T::spec_count(1000000)),
        ),
{
}

/// Sparse training trains the rows of a matrix that the inputs of that matrix hash to, and no
/// others.
pub proof fn law_rows_trained_by_inputs<T: Scalar>(
    lm: ToyLm<T>,
    g: ToyLmGrads<T>,
    m: ToyLmGrads<T>,
    cache: ForwardCache<T>,
    planes: Seq<Seq<T>>,
    ff_planes: Seq<Seq<T>>,
    l: int,
    part: Part,
    r: int,
    t: int,
    j: int,
)
    requires
        lm.wf(),
        cached(cache, lm),
        layer_masked(g, m, cache, lm.config, planes, ff_planes, l),
        0 <= l < lm.config.num_layers,
        0 <= r,
        0 <= j,
        cache.tokens@.len() > 0,
        ({
            let (a, width) = match part {
                Part::Qkv => (g.qkv@[l], lm.config.dim),
                Part::AttnOut => (g.attn_out@[l], lm.config.dim),
                Part::FfUp => (g.ff_up@[l], lm.config.dim),
                Part::FfDown => (g.ff_down@[l], lm.config.ff_dim),
            };
            j < width && (r + 1) * width <= a.data@.len()
        }),
    ensures
        ({
            let (a, b, width, hyper) = match part {
                Part::Qkv => (g.qkv@[l], m.qkv@[l], lm.config.dim, planes),
                Part::AttnOut => (g.attn_out@[l], m.attn_out@[l], lm.config.dim, planes),
                Part::FfUp => (g.ff_up@[l], m.ff_up@[l], lm.config.dim, planes),
                Part::FfDown => (g.ff_down@[l], m.ff_down@[l], lm.config.ff_dim, ff_planes),
            };
            let inputs = part_inputs(lm, cache.tokens@, l, part);
            let bucket = r % (pow2(hyper.len()) as int);
            &&& 0 <= t < cache.tokens@.len() && hash_spec(hyper, inputs[t]) == bucket
                ==> b.data@[r * width + j] == a.data@[r * width + j]
            &&& (forall|s: int|
                0 <= s < cache.tokens@.len() ==> hash_spec(hyper, #[trigger] inputs[s]) != bucket)
                ==> b.data@[r * width + j] == T::spec_zero()
        }),
{
    let n = cache.tokens@.len() as int;
    let lc = cache.layers@[l];
    let w = lm.weights;
    let c = lm.config;
    let x = hidden(w, c, cache.tokens@, l as nat);
    assert(layer_cached(lc, w, c, l, x));
    lemma_hidden_len(w, c, cache.tokens@, l as nat);
    let (a, width, hyper, acts) = match part {
        Part::Qkv => (g.qkv@[l], c.dim, planes, lc.ln1_out@),
        Part::AttnOut => (g.attn_out@[l], c.dim, planes, lc.attn_out@),
        Part::FfUp => (g.ff_up@[l], c.dim, planes, lc.ln2_out@),
        Part::FfDown => (g.ff_down@[l], c.ff_dim, ff_planes, lc.ff_up_act@),
    };
    let inputs = part_inputs(lm, cache.tokens@, l, part);
    assert(inputs.len() == n);
    assert forall|s: int| 0 <= s < n implies #[trigger] row_of(acts, width as int, s)
        == inputs[s] by {}
    law_masking_keeps_or_empties(a.data@, acts, n, width as int, hyper, r, t, j);
    let bucket = r % (pow2(hyper.len()) as int);
    if forall|s: int|
        0 <= s < n ==> hash_spec(hyper, #[trigger] inputs[s]) != bucket {
        assert forall|s: int| 0 <= s < n implies hash_spec(
            hyper,
            #[trigger] row_of(acts, width as int, s),
        ) != bucket by {
            assert(row_of(acts, width as int, s) == inputs[s]);
        }
    }
    if 0 <= t < n {
        assert(row_of(acts, width as int, t) == inputs[t]);
    }
}

/// The learning rate is multiplied by the decay once a pass: after some passes and some more it is
/// what it would be after the latter, had training started with what it was after the former.
pub proof fn law_learning_rate_by_pass<T: Scalar>(lr: T, decay: T, a: nat, b: nat)
    ensures
        lr_at(lr, decay, 0) == lr,
        lr_at(lr, decay, 1) == lr.times_spec(decay),
        lr_at(lr, decay, a + b) == lr_at(lr_at(lr, decay, a), decay, b),
    decreases b,
{
    assert(lr_at(lr, decay, 0) == lr);
    if b > 0 {
        law_learning_rate_by_pass(lr, decay, a, (b - 1) as nat);
        assert(a + b - 1 == a + (b - 1) as nat);
    }
}

/// The slots of the memories are written in turn: no slot is written again before all others
/// have been.
pub proof fn law_slots_in_turn(c: Config, a: int, b: int)
    requires
        c.ff_dim > 0,
        0 <= a < b,
    ensures
        0 <= slot_at(c, a) < c.ff_dim,
        b < a + c.ff_dim ==> slot_at(c, a) != slot_at(c, b),
        b == a + c.ff_dim ==> slot_at(c, a) == slot_at(c, b),
        a == 0 ==> slot_at(c, a) == 0,
        b < c.ff_dim ==> slot_at(c, b) == b,
{
    let n = c.ff_dim as int;
    assert(0 <= a % n < n && 0 <= b % n < n) by (nonlinear_arith)
        requires
            n > 0,
    ;
    vstd::arithmetic::div_mod::lemma_fundamental_div_mod(a, n);
    vstd::arithmetic::div_mod::lemma_fundamental_div_mod(b, n);
    if a % n == b % n {
        let (x, y) = (a / n, b / n);
        assert(b - a == n * (y - x)) by (nonlinear_arith)
            requires
                a == n * x + a % n,
                b == n * y + b % n,
                a % n == b % n,
        ;
        assert(b - a >= n) by (nonlinear_arith)
            requires
                b - a == n * (y - x),
                b > a,
                n > 0,
        ;
    }
    vstd::arithmetic::div_mod::lemma_mod_add_multiples_vanish(a, n);
    if b < n {
        vstd::arithmetic::div_mod::lemma_small_mod(b as nat, n as nat);
    }
    vstd::arithmetic::div_mod::lemma_small_mod(0, n as nat);
}

} // verus!
