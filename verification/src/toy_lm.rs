//! A small transformer language model.
//!
//! Token embedding; then in each layer attention and a feed-forward block, each behind
//! a normalisation and added to the hidden state; then a final normalisation, and the
//! inner products with the token embedding as the scores of the next token.

use vstd::prelude::*;
use crate::config::Config;
use crate::rng::{lemma_state_after, seed_state, state_after, unit_interval, Lcg};
use crate::scalar::{dot, dot_spec, products, sum_of, Scalar};
use crate::tensor::{copy_all, filled, lemma_row_index, Matrix};
use crate::transformer::{
    add_all, added_rows, applied, applied_rows, apply_to_rows, attention_rows,
    causal_self_attention, gelu_all, gelu_inplace, gelu_rows, holds_rows, layernorm,
    lemma_added_rows, lemma_gelu_rows, lemma_rows_held, lemma_rows_read, norm_rows, one, push_row,
    row_at, row_parts, rows_of, softmax, softmax_spec, split_qkv,
};

verus! {

/// The weights of a model.
#[derive(Debug, Clone)]
pub struct ToyLmWeights<T> {
    /// `[vocab_size, dim]`, also the output head.
    pub token_embed: Matrix<T>,
    /// Per layer the gain of the normalisation in front of attention.
    pub ln1_gain: Vec<Vec<T>>,
    /// Per layer the projection to queries, keys and values, `[3 * dim, dim]`.
    pub qkv: Vec<Matrix<T>>,
    /// Per layer the projection of the attention output, `[dim, dim]`.
    pub attn_out: Vec<Matrix<T>>,
    /// Per layer the gain of the normalisation in front of the feed-forward block.
    pub ln2_gain: Vec<Vec<T>>,
    /// Per layer the first feed-forward projection, `[ff_dim, dim]`.
    pub ff_up: Vec<Matrix<T>>,
    /// Per layer the second feed-forward projection, `[dim, ff_dim]`.
    pub ff_down: Vec<Matrix<T>>,
    /// The gain of the final normalisation.
    pub ln_f_gain: Vec<T>,
}

/// A model: its sizes and its weights.
#[derive(Debug, Clone)]
pub struct ToyLm<T> {
    pub config: Config,
    pub weights: ToyLmWeights<T>,
}

/// Whether a matrix has the given shape.
pub open spec fn has_shape<T>(m: Matrix<T>, rows: int, cols: int) -> bool {
    m.wf() && m.rows == rows && m.cols == cols
}

/// Whether there are `n` matrices of the given shape.
pub open spec fn have_shape<T>(ms: Seq<Matrix<T>>, n: int, rows: int, cols: int) -> bool {
    ms.len() == n && forall|l: int| 0 <= l < n ==> has_shape(#[trigger] ms[l], rows, cols)
}

/// Whether there are `n` gains of `dim` numbers.
pub open spec fn gains_fit<T>(gains: Seq<Vec<T>>, n: int, dim: int) -> bool {
    gains.len() == n && forall|l: int| 0 <= l < n ==> (#[trigger] gains[l])@.len() == dim
}

/// Whether the weights have the shapes that the sizes ask for.
pub open spec fn weights_fit<T>(w: ToyLmWeights<T>, c: Config) -> bool {
    let n = c.num_layers as int;
    let d = c.dim as int;
    &&& has_shape(w.token_embed, c.vocab_size as int, d)
    &&& gains_fit(w.ln1_gain@, n, d)
    &&& gains_fit(w.ln2_gain@, n, d)
    &&& have_shape(w.qkv@, n, 3 * d, d)
    &&& have_shape(w.attn_out@, n, d, d)
    &&& have_shape(w.ff_up@, n, c.ff_dim as int, d)
    &&& have_shape(w.ff_down@, n, d, c.ff_dim as int)
    &&& w.ln_f_gain@.len() == d
}

/// Whether the sizes can be addressed.
pub open spec fn sizes_fit(c: Config) -> bool {
    &&& c.vocab_size * c.dim <= usize::MAX
    &&& 3 * c.dim <= usize::MAX
    &&& (3 * c.dim) * c.dim <= usize::MAX
    &&& c.ff_dim * c.dim <= usize::MAX
}

/// The number of parameters in one layer without its gains.
pub open spec fn layer_params(c: Config) -> nat {
    (3 * (c.dim * c.dim) + c.dim * c.dim + c.ff_dim * c.dim + c.dim * c.ff_dim) as nat
}

/// The number of parameters of a model.
pub open spec fn param_count(c: Config) -> nat {
    (c.vocab_size * c.dim + c.num_layers * (layer_params(c) + 2 * c.dim) + c.dim) as nat
}

/// `n` matrices of zeros.
pub fn zero_matrices<T: Scalar>(n: usize, rows: usize, cols: usize) -> (r: Vec<Matrix<T>>)
    requires
        rows * cols <= usize::MAX,
    ensures
        have_shape(r@, n as int, rows as int, cols as int),
        forall|l: int| 0 <= l < n ==> all_zero((#[trigger] r@[l]).data@),
{
    let mut out: Vec<Matrix<T>> = Vec::with_capacity(n);
    for l in 0..n
        invariant
            rows * cols <= usize::MAX,
            have_shape(out@, l as int, rows as int, cols as int),
            forall|k: int| 0 <= k < l ==> all_zero((#[trigger] out@[k]).data@),
    {
        out.push(Matrix::zeros(rows, cols));
    }
    out
}

/// Whether every number is zero.
pub open spec fn all_zero<T: Scalar>(s: Seq<T>) -> bool {
    forall|i: int| 0 <= i < s.len() ==> #[trigger] s[i] == T::spec_zero()
}

/// Whether every number is one.
pub open spec fn all_one<T: Scalar>(s: Seq<T>) -> bool {
    forall|i: int| 0 <= i < s.len() ==> #[trigger] s[i] == one::<T>()
}

/// `n` rows of the same value.
pub fn filled_rows<T: Scalar>(n: usize, dim: usize, value: T) -> (r: Vec<Vec<T>>)
    ensures
        gains_fit(r@, n as int, dim as int),
        forall|l: int, j: int| 0 <= l < n && 0 <= j < dim ==> #[trigger] r@[l]@[j] == value,
{
    let mut out: Vec<Vec<T>> = Vec::with_capacity(n);
    for l in 0..n
        invariant
            gains_fit(out@, l as int, dim as int),
            forall|k: int, j: int| 0 <= k < l && 0 <= j < dim ==> #[trigger] out@[k]@[j] == value,
    {
        out.push(filled(dim, value));
    }
    out
}

/// The factor of random weights: the square root of two over the number of inputs.
pub open spec fn xavier_scale<T: Scalar>(fan_in: nat) -> T {
    T::spec_count(2).over_spec(
        T::spec_count(
            if fan_in == 0 {
                1
            } else {
                fan_in as usize
            },
        ),
    ).root_spec()
}

/// `n` random weights from the generator's state `x`.
pub open spec fn xavier_spec<T: Scalar>(n: nat, fan_in: nat, x: u64) -> Seq<T> {
    Seq::new(
        n,
        |i: int|
            unit_interval::<T>(state_after(x, (i + 1) as nat)).times_spec(
                T::spec_count(2),
            ).minus_spec(one::<T>()).times_spec(xavier_scale::<T>(fan_in)),
    )
}

/// `n` random weights.
fn xavier<T: Scalar>(n: usize, fan_in: usize, rng: &mut Lcg) -> (r: Vec<T>)
    ensures
        r@ == xavier_spec::<T>(n as nat, fan_in as nat, old(rng).state),
        final(rng).state == state_after(old(rng).state, n as nat),
{
    let ghost x = rng.state;
    let ghost goal = xavier_spec::<T>(n as nat, fan_in as nat, x);
    let two = T::from_count(2);
    let one = T::from_count(1);
    let inputs: usize = if fan_in == 0 {
        1
    } else {
        fan_in
    };
    let scale = two.over(T::from_count(inputs)).root();
    let mut out: Vec<T> = Vec::with_capacity(n);
    for i in 0..n
        invariant
            goal == xavier_spec::<T>(n as nat, fan_in as nat, x),
            two == T::spec_count(2),
            one == T::spec_count(1),
            scale == xavier_scale::<T>(fan_in as nat),
            rng.state == state_after(x, i as nat),
            out@ == goal.take(i as int),
    {
        let u: T = rng.next_f32();
        out.push(u.times(two).minus(one).times(scale));
        assert(out@ =~= goal.take(i + 1));
    }
    assert(out@ =~= goal);
    out
}

/// The number of random weights of one layer.
pub open spec fn random_layer(c: Config) -> nat {
    ((3 * c.dim) * c.dim + c.dim * c.dim + c.ff_dim * c.dim + c.dim * c.ff_dim) as nat
}

/// The generator's state in front of the weights of layer `l`.
pub open spec fn layer_state(c: Config, seed: u64, l: nat) -> u64 {
    state_after(seed_state(seed), (c.vocab_size * c.dim) as nat + l * random_layer(c))
}

/// Whether the matrices of layer `l` are those that the generator gives.
pub open spec fn matrices_random<T: Scalar>(
    qkv: Matrix<T>,
    attn_out: Matrix<T>,
    ff_up: Matrix<T>,
    ff_down: Matrix<T>,
    c: Config,
    x: u64,
) -> bool {
    let a = ((3 * c.dim) * c.dim) as nat;
    let b = (c.dim * c.dim) as nat;
    let u = (c.ff_dim * c.dim) as nat;
    let d = (c.dim * c.ff_dim) as nat;
    &&& qkv.data@ == xavier_spec::<T>(a, c.dim as nat, x)
    &&& attn_out.data@ == xavier_spec::<T>(b, c.dim as nat, state_after(x, a))
    &&& ff_up.data@ == xavier_spec::<T>(u, c.dim as nat, state_after(x, a + b))
    &&& ff_down.data@ == xavier_spec::<T>(d, c.ff_dim as nat, state_after(x, a + b + u))
}

/// Whether the weights of layer `l` are those that the generator gives.
pub open spec fn layer_random<T: Scalar>(w: ToyLmWeights<T>, c: Config, seed: u64, l: int) -> bool {
    matrices_random(
        w.qkv@[l],
        w.attn_out@[l],
        w.ff_up@[l],
        w.ff_down@[l],
        c,
        layer_state(c, seed, l as nat),
    )
}

impl<T: Scalar> ToyLm<T> {
    /// Whether the weights have the shapes that the sizes ask for.
    pub open spec fn wf(&self) -> bool {
        weights_fit(self.weights, self.config)
    }

    /// A model with all matrices zero and all gains one.
    pub fn new(config: Config) -> (r: Self)
        requires
            sizes_fit(config),
        ensures
            r.wf(),
            r.config == config,
            all_zero(r.weights.token_embed.data@),
            forall|l: int|
                0 <= l < config.num_layers ==> all_zero((#[trigger] r.weights.qkv@[l]).data@),
            forall|l: int|
                0 <= l < config.num_layers ==> all_zero((#[trigger] r.weights.attn_out@[l]).data@),
            forall|l: int|
                0 <= l < config.num_layers ==> all_zero((#[trigger] r.weights.ff_up@[l]).data@),
            forall|l: int|
                0 <= l < config.num_layers ==> all_zero((#[trigger] r.weights.ff_down@[l]).data@),
            forall|l: int|
                0 <= l < config.num_layers ==> all_one((#[trigger] r.weights.ln1_gain@[l])@),
            forall|l: int|
                0 <= l < config.num_layers ==> all_one((#[trigger] r.weights.ln2_gain@[l])@),
            all_one(r.weights.ln_f_gain@),
    {
        let one = T::from_count(1);
        let n: usize = config.num_layers;
        let d: usize = config.dim;
        let f: usize = config.ff_dim;
        proof {
            assert(d * d <= (3 * d) * d) by (nonlinear_arith);
            assert(d * f == f * d) by (nonlinear_arith);
        }
        let weights = ToyLmWeights {
            token_embed: Matrix::zeros(config.vocab_size, d),
            ln1_gain: filled_rows(n, d, one),
            qkv: zero_matrices(n, 3 * d, d),
            attn_out: zero_matrices(n, d, d),
            ln2_gain: filled_rows(n, d, one),
            ff_up: zero_matrices(n, f, d),
            ff_down: zero_matrices(n, d, f),
            ln_f_gain: filled(d, one),
        };
        ToyLm { config, weights }
    }

    /// A model with random matrices, from the given seed, and all gains one.
    pub fn init_random(config: Config, seed: u64) -> (r: Self)
        requires
            sizes_fit(config),
        ensures
            r.wf(),
            r.config == config,
            r.weights.token_embed.data@ == xavier_spec::<T>(
                (config.vocab_size * config.dim) as nat,
                config.dim as nat,
                seed_state(seed),
            ),
            forall|l: int|
                0 <= l < config.num_layers ==> #[trigger] layer_random(
                    r.weights,
                    config,
                    seed,
                    l,
                ),
            forall|l: int|
                0 <= l < config.num_layers ==> all_one((#[trigger] r.weights.ln1_gain@[l])@),
            forall|l: int|
                0 <= l < config.num_layers ==> all_one((#[trigger] r.weights.ln2_gain@[l])@),
            all_one(r.weights.ln_f_gain@),
    {
        let one = T::from_count(1);
        let n: usize = config.num_layers;
        let d: usize = config.dim;
        let f: usize = config.ff_dim;
        let v: usize = config.vocab_size;
        let ghost c = config;
        let ghost s0 = seed_state(seed);
        let ghost e = (v * d) as nat;
        let ghost a = ((3 * d) * d) as nat;
        let ghost b = (d * d) as nat;
        let ghost u = (f * d) as nat;
        let ghost w = (d * f) as nat;
        proof {
            assert(d * d <= (3 * d) * d) by (nonlinear_arith);
            assert(d * f == f * d) by (nonlinear_arith);
        }
        let mut rng = Lcg::new(seed);
        let token_embed = Matrix { rows: v, cols: d, data: xavier(v * d, d, &mut rng) };
        let mut qkv: Vec<Matrix<T>> = Vec::with_capacity(n);
        let mut attn_out: Vec<Matrix<T>> = Vec::with_capacity(n);
        let mut ff_up: Vec<Matrix<T>> = Vec::with_capacity(n);
        let mut ff_down: Vec<Matrix<T>> = Vec::with_capacity(n);
        assert(0 * random_layer(c) == 0) by (nonlinear_arith);
        for l in 0..n
            invariant
                c == config,
                n == c.num_layers,
                d == c.dim,
                f == c.ff_dim,
                v == c.vocab_size,
                sizes_fit(c),
                d * d <= (3 * d) * d,
                d * f == f * d,
                a == (3 * d) * d,
                b == d * d,
                u == f * d,
                w == d * f,
                have_shape(qkv@, l as int, 3 * d, d as int),
                have_shape(attn_out@, l as int, d as int, d as int),
                have_shape(ff_up@, l as int, f as int, d as int),
                have_shape(ff_down@, l as int, d as int, f as int),
                rng.state == layer_state(c, seed, l as nat),
                forall|k: int|
                    0 <= k < l ==> matrices_random(
                        #[trigger] qkv@[k],
                        attn_out@[k],
                        ff_up@[k],
                        ff_down@[k],
                        c,
                        layer_state(c, seed, k as nat),
                    ),
        {
            let ghost x = rng.state;
            let ghost qkv0 = qkv@;
            let ghost attn0 = attn_out@;
            let ghost up0 = ff_up@;
            let ghost down0 = ff_down@;
            qkv.push(Matrix { rows: 3 * d, cols: d, data: xavier(3 * d * d, d, &mut rng) });
            attn_out.push(Matrix { rows: d, cols: d, data: xavier(d * d, d, &mut rng) });
            proof {
                lemma_state_after(x, a, b);
            }
            ff_up.push(Matrix { rows: f, cols: d, data: xavier(f * d, d, &mut rng) });
            proof {
                lemma_state_after(x, a + b, u);
            }
            ff_down.push(Matrix { rows: d, cols: f, data: xavier(d * f, f, &mut rng) });
            proof {
                lemma_state_after(x, a + b + u, w);
                let base = (v * d) as nat + l as nat * random_layer(c);
                lemma_state_after(seed_state(seed), base, random_layer(c));
                assert((l + 1) * random_layer(c) == l * random_layer(c) + random_layer(c))
                    by (nonlinear_arith);
                assert forall|k: int| 0 <= k < l + 1 implies matrices_random(
                    #[trigger] qkv@[k],
                    attn_out@[k],
                    ff_up@[k],
                    ff_down@[k],
                    c,
                    layer_state(c, seed, k as nat),
                ) by {
                    if k < l {
                        assert(qkv@[k] == qkv0[k]);
                        assert(attn_out@[k] == attn0[k]);
                        assert(ff_up@[k] == up0[k]);
                        assert(ff_down@[k] == down0[k]);
                    }
                }
            }
        }
        let weights = ToyLmWeights {
            token_embed,
            ln1_gain: filled_rows(n, d, one),
            qkv,
            attn_out,
            ln2_gain: filled_rows(n, d, one),
            ff_up,
            ff_down,
            ln_f_gain: filled(d, one),
        };
        proof {
            assert forall|l: int| 0 <= l < config.num_layers implies #[trigger] layer_random(
                weights,
                c,
                seed,
                l,
            ) by {
                assert(matrices_random(
                    qkv@[l],
                    attn_out@[l],
                    ff_up@[l],
                    ff_down@[l],
                    c,
                    layer_state(c, seed, l as nat),
                ));
            }
        }
        ToyLm { config, weights }
    }

    /// The number of parameters.
    pub fn num_params(&self) -> (r: u64)
        requires
            param_count(self.config) <= usize::MAX,
            layer_params(self.config) + 2 * self.config.dim <= usize::MAX,
        ensures
            r == param_count(self.config),
    {
        let c = &self.config;
        let ghost dd = c.dim * c.dim;
        proof {
            assert(0 <= c.dim * c.dim) by (nonlinear_arith);
            assert(0 <= c.ff_dim * c.dim) by (nonlinear_arith);
            assert(0 <= c.dim * c.ff_dim) by (nonlinear_arith);
            assert(0 <= c.vocab_size * c.dim) by (nonlinear_arith);
            assert(0 <= c.num_layers * (layer_params(*c) + 2 * c.dim)) by (nonlinear_arith)
                requires
                    0 <= c.num_layers,
                    0 <= layer_params(*c) + 2 * c.dim,
            ;
        }
        let embed: usize = c.vocab_size * c.dim;
        let square: usize = c.dim * c.dim;
        let per_layer: usize = 3 * square + square + c.ff_dim * c.dim + c.dim * c.ff_dim;
        let ln: usize = 2 * c.dim;
        let total: usize = embed + c.num_layers * (per_layer + ln) + c.dim;
        total as u64
    }
}

/// The row of the embedding that a token takes: its own, or the last one if it has none.
pub open spec fn clamped_token(token: u32, vocab_size: int) -> int {
    if token < vocab_size {
        token as int
    } else {
        vocab_size - 1
    }
}

/// The embedding of the tokens.
pub open spec fn embedded<T>(embed: Matrix<T>, tokens: Seq<u32>) -> Seq<Seq<T>> {
    tokens.map_values(|t: u32| embed.row_seq(clamped_token(t, embed.rows as int)))
}

/// Looks up the embedding of the tokens.
pub fn embed_tokens<T: Scalar>(embed: &Matrix<T>, tokens: &[u32]) -> (r: Vec<T>)
    requires
        embed.wf(),
        embed.rows > 0 || tokens@.len() == 0,
    ensures
        holds_rows(r@, embed.cols as nat, embedded(*embed, tokens@)),
{
    let ghost goal = embedded(*embed, tokens@);
    let mut out: Vec<T> = Vec::new();
    assert(0 * embed.cols == 0) by (nonlinear_arith);
    for t in 0..tokens.len()
        invariant
            embed.wf(),
            embed.rows > 0 || tokens@.len() == 0,
            goal == embedded(*embed, tokens@),
            holds_rows(out@, embed.cols as nat, goal.take(t as int)),
    {
        let tok: usize = tokens[t] as usize;
        let at: usize = if tok < embed.rows {
            tok
        } else {
            embed.rows - 1
        };
        let row = copy_all(row_at(&embed.data, embed.cols, at, Ghost(embed.rows as int)));
        assert(goal.take(t + 1) =~= goal.take(t as int).push(row@));
        push_row(&mut out, row, Ghost(embed.cols as nat), Ghost(goal.take(t as int)));
    }
    assert(goal.take(tokens@.len() as int) =~= goal);
    out
}

/// Attention over rows of queries, keys and values that lie one behind the other.
pub open spec fn attended<T: Scalar>(qkv: Seq<Seq<T>>, dim: int, num_heads: int) -> Seq<Seq<T>> {
    attention_rows(
        row_parts(qkv, dim as nat, 0),
        row_parts(qkv, dim as nat, 1),
        row_parts(qkv, dim as nat, 2),
        dim,
        num_heads,
    )
}

/// The hidden state behind the attention of layer `l`.
pub open spec fn after_attention<T: Scalar>(
    w: ToyLmWeights<T>,
    c: Config,
    l: int,
    x: Seq<Seq<T>>,
) -> Seq<Seq<T>> {
    let qkv = applied_rows(w.qkv@[l], norm_rows(x, w.ln1_gain@[l]@));
    added_rows(
        x,
        applied_rows(w.attn_out@[l], attended(qkv, c.dim as int, c.num_heads as int)),
    )
}

/// The hidden state behind the feed-forward block of layer `l`.
pub open spec fn after_feed_forward<T: Scalar>(
    w: ToyLmWeights<T>,
    l: int,
    x: Seq<Seq<T>>,
) -> Seq<Seq<T>> {
    added_rows(
        x,
        applied_rows(
            w.ff_down@[l],
            gelu_rows(applied_rows(w.ff_up@[l], norm_rows(x, w.ln2_gain@[l]@))),
        ),
    )
}

/// The hidden state behind the first `l` layers.
pub open spec fn hidden<T: Scalar>(w: ToyLmWeights<T>, c: Config, tokens: Seq<u32>, l: nat) -> Seq<
    Seq<T>,
>
    decreases l,
{
    if l == 0 {
        embedded(w.token_embed, tokens)
    } else {
        after_feed_forward(
            w,
            l - 1,
            after_attention(w, c, l - 1, hidden(w, c, tokens, (l - 1) as nat)),
        )
    }
}

/// The scores of the next token, from the last hidden state.
pub open spec fn head_rows<T: Scalar>(w: ToyLmWeights<T>, x: Seq<Seq<T>>) -> Seq<Seq<T>> {
    applied_rows(w.token_embed, norm_rows(x, w.ln_f_gain@))
}

/// The scores of the next token at each position.
pub open spec fn logits_spec<T: Scalar>(lm: ToyLm<T>, tokens: Seq<u32>) -> Seq<Seq<T>> {
    head_rows(
        lm.weights,
        hidden(lm.weights, lm.config, tokens, lm.config.num_layers as nat),
    )
}

/// Whether a forward pass can run: there are tokens in the vocabulary for the input, and
/// no width that is divided by is zero.
pub open spec fn can_run(c: Config, len: nat) -> bool {
    &&& c.vocab_size > 0 || len == 0
    &&& c.num_layers > 0 ==> c.dim > 0 && c.num_heads > 0 && c.ff_dim > 0
}

/// Whether a forward pass with retrieval can run: as for [`can_run`], but the memories may
/// have no slots.
pub open spec fn can_retrieve(c: Config, len: nat) -> bool {
    &&& c.vocab_size > 0 || len == 0
    &&& c.num_layers > 0 ==> c.dim > 0 && c.num_heads > 0
}

/// The attention part of layer `l`.
pub fn attention_sub<T: Scalar>(
    x: &Vec<T>,
    seq: usize,
    w: &ToyLmWeights<T>,
    c: &Config,
    l: usize,
) -> (r: Vec<T>)
    requires
        weights_fit(*w, *c),
        l < c.num_layers,
        c.num_heads > 0,
        x@.len() == seq * c.dim,
    ensures
        holds_rows(
            r@,
            c.dim as nat,
            after_attention(*w, *c, l as int, rows_of(x@, seq as nat, c.dim as nat)),
        ),
{
    let d: usize = c.dim;
    let ghost xs = rows_of(x@, seq as nat, d as nat);
    proof {
        assert(has_shape(w.qkv@[l as int], 3 * d, d as int));
        assert(has_shape(w.attn_out@[l as int], d as int, d as int));
        assert(w.ln1_gain@[l as int]@.len() == d);
        lemma_rows_held(x@, seq as nat, d as nat);
    }
    let h = layernorm(x, seq, d, &w.ln1_gain[l]);
    let ghost hs = norm_rows(xs, w.ln1_gain@[l as int]@);
    proof {
        lemma_rows_read(h@, d as nat, hs);
    }
    let qkv_out = apply_to_rows(&h, seq, &w.qkv[l]);
    let ghost qs = applied_rows(w.qkv@[l as int], hs);
    proof {
        lemma_rows_read(qkv_out@, (3 * d) as nat, qs);
    }
    let (q, k, v) = split_qkv(&qkv_out, seq, d);
    proof {
        lemma_rows_read(q@, d as nat, row_parts(qs, d as nat, 0));
        lemma_rows_read(k@, d as nat, row_parts(qs, d as nat, 1));
        lemma_rows_read(v@, d as nat, row_parts(qs, d as nat, 2));
    }
    let attn = causal_self_attention(&q, &k, &v, seq, d, c.num_heads);
    let ghost at = attended(qs, d as int, c.num_heads as int);
    proof {
        lemma_rows_read(attn@, d as nat, at);
    }
    let proj = apply_to_rows(&attn, seq, &w.attn_out[l]);
    let ghost ps = applied_rows(w.attn_out@[l as int], at);
    let r = add_all(x, &proj);
    proof {
        lemma_added_rows(x@, proj@, d as nat, xs, ps);
    }
    r
}

/// The feed-forward part of layer `l`.
fn feed_forward_sub<T: Scalar>(
    x: &Vec<T>,
    seq: usize,
    w: &ToyLmWeights<T>,
    c: &Config,
    l: usize,
) -> (r: Vec<T>)
    requires
        weights_fit(*w, *c),
        l < c.num_layers,
        x@.len() == seq * c.dim,
    ensures
        holds_rows(
            r@,
            c.dim as nat,
            after_feed_forward(*w, l as int, rows_of(x@, seq as nat, c.dim as nat)),
        ),
{
    let d: usize = c.dim;
    let f: usize = c.ff_dim;
    let ghost xs = rows_of(x@, seq as nat, d as nat);
    proof {
        assert(has_shape(w.ff_up@[l as int], f as int, d as int));
        assert(has_shape(w.ff_down@[l as int], d as int, f as int));
        assert(w.ln2_gain@[l as int]@.len() == d);
        lemma_rows_held(x@, seq as nat, d as nat);
    }
    let h = layernorm(x, seq, d, &w.ln2_gain[l]);
    let ghost hs = norm_rows(xs, w.ln2_gain@[l as int]@);
    proof {
        lemma_rows_read(h@, d as nat, hs);
    }
    let mut up = apply_to_rows(&h, seq, &w.ff_up[l]);
    let ghost us = applied_rows(w.ff_up@[l as int], hs);
    proof {
        lemma_gelu_rows(up@, f as nat, us);
    }
    gelu_inplace(&mut up);
    proof {
        lemma_rows_read(up@, f as nat, gelu_rows(us));
    }
    let down = apply_to_rows(&up, seq, &w.ff_down[l]);
    let ghost ds = applied_rows(w.ff_down@[l as int], gelu_rows(us));
    let r = add_all(x, &down);
    proof {
        lemma_added_rows(x@, down@, d as nat, xs, ds);
    }
    r
}

/// The output head.
fn apply_head<T: Scalar>(x: &Vec<T>, seq: usize, w: &ToyLmWeights<T>, c: &Config) -> (r: Vec<T>)
    requires
        weights_fit(*w, *c),
        x@.len() == seq * c.dim,
    ensures
        holds_rows(
            r@,
            c.vocab_size as nat,
            head_rows(*w, rows_of(x@, seq as nat, c.dim as nat)),
        ),
{
    let d: usize = c.dim;
    let ghost xs = rows_of(x@, seq as nat, d as nat);
    let h = layernorm(x, seq, d, &w.ln_f_gain);
    proof {
        lemma_rows_read(h@, d as nat, norm_rows(xs, w.ln_f_gain@));
    }
    apply_to_rows(&h, seq, &w.token_embed)
}

impl<T: Scalar> ToyLm<T> {
    /// The scores of the next token at each position, row by row.
    pub fn forward(&self, tokens: &[u32]) -> (r: Vec<T>)
        requires
            self.wf(),
            can_run(self.config, tokens@.len()),
        ensures
            holds_rows(r@, self.config.vocab_size as nat, logits_spec(*self, tokens@)),
    {
        let c = &self.config;
        let w = &self.weights;
        let seq: usize = tokens.len();
        let mut x = embed_tokens(&w.token_embed, tokens);
        for l in 0..c.num_layers
            invariant
                self.wf(),
                *c == self.config,
                *w == self.weights,
                seq == tokens@.len(),
                can_run(self.config, tokens@.len()),
                holds_rows(x@, c.dim as nat, hidden(*w, *c, tokens@, l as nat)),
                hidden(*w, *c, tokens@, l as nat).len() == seq,
        {
            let ghost xs = hidden(*w, *c, tokens@, l as nat);
            proof {
                lemma_rows_read(x@, c.dim as nat, xs);
            }
            let y = attention_sub(&x, seq, w, c, l);
            proof {
                lemma_rows_read(y@, c.dim as nat, after_attention(*w, *c, l as int, xs));
            }
            x = feed_forward_sub(&y, seq, w, c, l);
        }
        proof {
            lemma_rows_read(x@, c.dim as nat, hidden(*w, *c, tokens@, c.num_layers as nat));
        }
        apply_head(&x, seq, w, c)
    }
}

/// The scores of the memory's slots for a query.
pub open spec fn slot_scores<T: Scalar>(keys: Matrix<T>, query: Seq<T>, beta: T) -> Seq<T> {
    Seq::new(keys.rows as nat, |i: int| beta.times_spec(dot_spec(keys.row_seq(i), query)))
}

/// What the memory retrieves for a query: its values, weighted by how well their keys
/// match.
pub open spec fn retrieved<T: Scalar>(
    keys: Matrix<T>,
    values: Matrix<T>,
    query: Seq<T>,
    beta: T,
) -> Seq<T> {
    Seq::new(
        values.rows as nat,
        |j: int| dot_spec(values.row_seq(j), softmax_spec(slot_scores(keys, query, beta))),
    )
}

/// What the memory retrieves for a query.
pub fn retrieve<T: Scalar>(keys: &Matrix<T>, values: &Matrix<T>, query: &[T], beta: T) -> (r: Vec<T>)
    requires
        keys.wf(),
        values.wf(),
    ensures
        r@ == retrieved(*keys, *values, query@, beta),
{
    let ghost want = slot_scores(*keys, query@, beta);
    let mut scores: Vec<T> = Vec::with_capacity(keys.rows);
    for i in 0..keys.rows
        invariant
            keys.wf(),
            want == slot_scores(*keys, query@, beta),
            scores@ == want.take(i as int),
    {
        let key = row_at(&keys.data, keys.cols, i, Ghost(keys.rows as int));
        scores.push(beta.times(dot(key, query)));
        assert(scores@ =~= want.take(i + 1));
    }
    assert(scores@ =~= want);
    let p = softmax(&scores);
    let ghost goal = retrieved(*keys, *values, query@, beta);
    let mut out: Vec<T> = Vec::with_capacity(values.rows);
    for j in 0..values.rows
        invariant
            values.wf(),
            p@ == softmax_spec(slot_scores(*keys, query@, beta)),
            goal == retrieved(*keys, *values, query@, beta),
            out@ == goal.take(j as int),
    {
        let value = row_at(&values.data, values.cols, j, Ghost(values.rows as int));
        out.push(dot(value, &p));
        assert(out@ =~= goal.take(j + 1));
    }
    assert(out@ =~= goal);
    out
}

/// What the memory retrieves for each row.
pub open spec fn retrieved_rows<T: Scalar>(
    keys: Matrix<T>,
    values: Matrix<T>,
    rows: Seq<Seq<T>>,
    beta: T,
) -> Seq<Seq<T>> {
    rows.map_values(|r: Seq<T>| retrieved(keys, values, r, beta))
}

/// The hidden state behind the retrieval of layer `l`, which takes the place of the
/// feed-forward block.
pub open spec fn after_retrieval<T: Scalar>(
    w: ToyLmWeights<T>,
    l: int,
    x: Seq<Seq<T>>,
    beta: T,
) -> Seq<Seq<T>> {
    added_rows(
        x,
        retrieved_rows(w.ff_up@[l], w.ff_down@[l], norm_rows(x, w.ln2_gain@[l]@), beta),
    )
}

/// The hidden state behind the first `l` layers, with retrieval.
pub open spec fn hidden_hopfield<T: Scalar>(
    w: ToyLmWeights<T>,
    c: Config,
    tokens: Seq<u32>,
    beta: T,
    l: nat,
) -> Seq<Seq<T>>
    decreases l,
{
    if l == 0 {
        embedded(w.token_embed, tokens)
    } else {
        after_retrieval(
            w,
            l - 1,
            after_attention(w, c, l - 1, hidden_hopfield(w, c, tokens, beta, (l - 1) as nat)),
            beta,
        )
    }
}

/// The scores of the next token at each position, with retrieval.
pub open spec fn hopfield_logits_spec<T: Scalar>(lm: ToyLm<T>, tokens: Seq<u32>, beta: T) -> Seq<
    Seq<T>,
> {
    head_rows(
        lm.weights,
        hidden_hopfield(
            lm.weights,
            lm.config,
            tokens,
            beta,
            lm.config.num_layers as nat,
        ),
    )
}

/// Adds to each row what a memory retrieves for the normalised row.
pub fn add_retrieved<T: Scalar>(
    x: &Vec<T>,
    seq: usize,
    gain: &Vec<T>,
    keys: &Matrix<T>,
    values: &Matrix<T>,
    beta: T,
) -> (r: Vec<T>)
    requires
        keys.wf(),
        values.wf(),
        values.rows == gain@.len(),
        x@.len() == seq * gain@.len(),
    ensures
        holds_rows(
            r@,
            gain@.len(),
            added_rows(
                rows_of(x@, seq as nat, gain@.len()),
                retrieved_rows(
                    *keys,
                    *values,
                    norm_rows(rows_of(x@, seq as nat, gain@.len()), gain@),
                    beta,
                ),
            ),
        ),
{
    let d: usize = gain.len();
    let ghost xs = rows_of(x@, seq as nat, d as nat);
    proof {
        lemma_rows_held(x@, seq as nat, d as nat);
    }
    let h = layernorm(x, seq, d, gain);
    let ghost hs = norm_rows(xs, gain@);
    proof {
        lemma_rows_read(h@, d as nat, hs);
    }
    let ghost goal = retrieved_rows(*keys, *values, hs, beta);
    let mut out: Vec<T> = Vec::new();
    assert(0 * d == 0) by (nonlinear_arith);
    for t in 0..seq
        invariant
            keys.wf(),
            values.wf(),
            values.rows == d,
            h@.len() == seq * d,
            hs == rows_of(h@, seq as nat, d as nat),
            goal == retrieved_rows(*keys, *values, hs, beta),
            holds_rows(out@, d as nat, goal.take(t as int)),
    {
        let query = row_at(&h, d, t, Ghost(seq as int));
        let row = retrieve(keys, values, query, beta);
        assert(goal.take(t + 1) =~= goal.take(t as int).push(row@));
        push_row(&mut out, row, Ghost(d as nat), Ghost(goal.take(t as int)));
    }
    assert(goal.take(seq as int) =~= goal);
    let r = add_all(x, &out);
    proof {
        lemma_added_rows(x@, out@, d as nat, xs, goal);
    }
    r
}

impl<T: Scalar> ToyLm<T> {
    /// The scores of the next token at each position, row by row, with the feed-forward
    /// blocks used as associative memories: what a block adds is not its activation but
    /// what it retrieves. `beta` is how sharply slots are told apart.
    pub fn forward_hopfield(&self, tokens: &[u32], beta: T) -> (r: Vec<T>)
        requires
            self.wf(),
            can_retrieve(self.config, tokens@.len()),
        ensures
            holds_rows(
                r@,
                self.config.vocab_size as nat,
                hopfield_logits_spec(*self, tokens@, beta),
            ),
    {
        let c = &self.config;
        let w = &self.weights;
        let seq: usize = tokens.len();
        let mut x = embed_tokens(&w.token_embed, tokens);
        for l in 0..c.num_layers
            invariant
                self.wf(),
                *c == self.config,
                *w == self.weights,
                seq == tokens@.len(),
                can_retrieve(self.config, tokens@.len()),
                holds_rows(x@, c.dim as nat, hidden_hopfield(*w, *c, tokens@, beta, l as nat)),
                hidden_hopfield(*w, *c, tokens@, beta, l as nat).len() == seq,
        {
            let ghost xs = hidden_hopfield(*w, *c, tokens@, beta, l as nat);
            proof {
                lemma_rows_read(x@, c.dim as nat, xs);
            }
            let y = attention_sub(&x, seq, w, c, l);
            proof {
                lemma_rows_read(y@, c.dim as nat, after_attention(*w, *c, l as int, xs));
            }
            proof {
                assert(has_shape(w.ff_up@[l as int], c.ff_dim as int, c.dim as int));
                assert(has_shape(w.ff_down@[l as int], c.dim as int, c.ff_dim as int));
                assert(w.ln2_gain@[l as int]@.len() == c.dim);
            }
            x = add_retrieved(&y, seq, &w.ln2_gain[l], &w.ff_up[l], &w.ff_down[l], beta);
        }
        proof {
            lemma_rows_read(
                x@,
                c.dim as nat,
                hidden_hopfield(*w, *c, tokens@, beta, c.num_layers as nat),
            );
        }
        apply_head(&x, seq, w, c)
    }
}

/// Whether products of a number with zero add nothing to zero. Finite floats are like that.
pub open spec fn absorbed<T: Scalar>(x: T) -> bool {
    let zero = T::spec_zero();
    &&& zero.plus_spec(x.times_spec(zero)) == zero
    &&& zero.plus_spec(zero.times_spec(x)) == zero
}

/// Whether products of the numbers with zero add nothing to zero.
pub open spec fn all_absorbed<T: Scalar>(s: Seq<T>) -> bool {
    forall|i: int| 0 <= i < s.len() ==> absorbed(#[trigger] s[i])
}

proof fn lemma_zero_dot<T: Scalar>(a: Seq<T>, b: Seq<T>, n: nat)
    requires
        n <= products(a, b).len(),
        (all_zero(a) && all_absorbed(b)) || (all_absorbed(a) && all_zero(b)),
    ensures
        sum_of(products(a, b), n) == T::spec_zero(),
    decreases n,
{
    if n > 0 {
        lemma_zero_dot(a, b, (n - 1) as nat);
        if all_absorbed(a) {
            assert(absorbed(a[n - 1]));
        }
        if all_absorbed(b) {
            assert(absorbed(b[n - 1]));
        }
    }
}

/// Whether all that layer `l` multiplies its second feed-forward matrix with can be absorbed
/// by zero: the activations behind hidden state `x`, and the weights of the memory's slots.
pub open spec fn layer_absorbed<T: Scalar>(
    w: ToyLmWeights<T>,
    l: int,
    x: Seq<Seq<T>>,
    beta: T,
) -> bool {
    let h = norm_rows(x, w.ln2_gain@[l]@);
    forall|t: int|
        0 <= t < h.len() ==> {
            &&& all_absorbed(gelu_all(applied(w.ff_up@[l], #[trigger] h[t])))
            &&& all_absorbed(softmax_spec(slot_scores(w.ff_up@[l], h[t], beta)))
        }
}

proof fn lemma_empty_memory<T: Scalar>(
    w: ToyLmWeights<T>,
    c: Config,
    l: int,
    x: Seq<Seq<T>>,
    beta: T,
)
    requires
        weights_fit(w, c),
        0 <= l < c.num_layers,
        all_zero(w.ff_down@[l].data@),
        layer_absorbed(w, l, x, beta),
    ensures
        after_retrieval(w, l, x, beta) == after_feed_forward(w, l, x),
{
    let h = norm_rows(x, w.ln2_gain@[l]@);
    let values = w.ff_down@[l];
    let a = retrieved_rows(w.ff_up@[l], values, h, beta);
    let b = applied_rows(values, gelu_rows(applied_rows(w.ff_up@[l], h)));
    assert(has_shape(values, c.dim as int, c.ff_dim as int));
    assert forall|t: int| 0 <= t < h.len() implies a[t] == b[t] by {
        let acts = gelu_all(applied(w.ff_up@[l], h[t]));
        let p = softmax_spec(slot_scores(w.ff_up@[l], h[t], beta));
        assert(gelu_rows(applied_rows(w.ff_up@[l], h))[t] == acts);
        assert forall|j: int| 0 <= j < values.rows implies a[t][j] == b[t][j] by {
            let row = values.row_seq(j);
            lemma_row_index(values.rows as int, values.cols as int, j);
            assert(all_zero(row));
            lemma_zero_dot(row, p, products(row, p).len());
            lemma_zero_dot(acts, row, products(acts, row).len());
        }
        assert(a[t] =~= b[t]);
    }
    assert(a =~= b);
}

proof fn lemma_empty_memories<T: Scalar>(lm: ToyLm<T>, tokens: Seq<u32>, beta: T, l: nat)
    requires
        lm.wf(),
        l <= lm.config.num_layers,
        forall|k: int|
            0 <= k < lm.config.num_layers ==> all_zero((#[trigger] lm.weights.ff_down@[k]).data@),
        forall|k: nat|
            k < lm.config.num_layers ==> layer_absorbed(
                lm.weights,
                k as int,
                after_attention(
                    lm.weights,
                    lm.config,
                    k as int,
                    #[trigger] hidden(lm.weights, lm.config, tokens, k),
                ),
                beta,
            ),
    ensures
        hidden_hopfield(lm.weights, lm.config, tokens, beta, l) == hidden(
            lm.weights,
            lm.config,
            tokens,
            l,
        ),
    decreases l,
{
    if l > 0 {
        let k = (l - 1) as nat;
        lemma_empty_memories(lm, tokens, beta, k);
        let x = hidden(lm.weights, lm.config, tokens, k);
        assert(all_zero(lm.weights.ff_down@[k as int].data@));
        lemma_empty_memory(
            lm.weights,
            lm.config,
            k as int,
            after_attention(lm.weights, lm.config, k as int, x),
            beta,
        );
    }
}

/// The two forward passes differ in what the feed-forward blocks add and in nothing else:
/// where every second feed-forward matrix is zero, they give the same scores for every
/// `beta`, if zero absorbs all that it is multiplied with.
pub proof fn law_empty_memories_add_nothing<T: Scalar>(lm: ToyLm<T>, tokens: Seq<u32>, beta: T)
    requires
        lm.wf(),
        forall|k: int|
            0 <= k < lm.config.num_layers ==> all_zero((#[trigger] lm.weights.ff_down@[k]).data@),
        forall|k: nat|
            k < lm.config.num_layers ==> layer_absorbed(
                lm.weights,
                k as int,
                after_attention(
                    lm.weights,
                    lm.config,
                    k as int,
                    #[trigger] hidden(lm.weights, lm.config, tokens, k),
                ),
                beta,
            ),
    ensures
        hopfield_logits_spec(lm, tokens, beta) == logits_spec(lm, tokens),
{
    lemma_empty_memories(lm, tokens, beta, lm.config.num_layers as nat);
}

/// Whether two lists of rows agree in the first `n` rows.
pub open spec fn agree<A>(a: Seq<A>, b: Seq<A>, n: int) -> bool {
    forall|t: int| 0 <= t < n ==> #[trigger] a[t] == b[t]
}

proof fn lemma_attended_prefix<T: Scalar>(
    a: Seq<Seq<T>>,
    b: Seq<Seq<T>>,
    dim: int,
    num_heads: int,
    n: int,
)
    requires
        dim >= 0,
        n <= a.len(),
        n <= b.len(),
        agree(a, b, n),
    ensures
        agree(attended(a, dim, num_heads), attended(b, dim, num_heads), n),
{
    let qa = row_parts(a, dim as nat, 0);
    let qb = row_parts(b, dim as nat, 0);
    let ka = row_parts(a, dim as nat, 1);
    let kb = row_parts(b, dim as nat, 1);
    let va = row_parts(a, dim as nat, 2);
    let vb = row_parts(b, dim as nat, 2);
    let hd = dim / num_heads;
    assert forall|t: int| 0 <= t < n implies #[trigger] attended(a, dim, num_heads)[t] == attended(
        b,
        dim,
        num_heads,
    )[t] by {
        let ra = attention_rows(qa, ka, va, dim, num_heads)[t];
        let rb = attention_rows(qb, kb, vb, dim, num_heads)[t];
        assert forall|c: int| 0 <= c < dim && c < num_heads * hd implies ra[c] == rb[c] by {
            let h = c / hd;
            let sa = crate::transformer::head_scores(qa, ka, hd, h, t);
            let sb = crate::transformer::head_scores(qb, kb, hd, h, t);
            assert forall|j: int| 0 <= j < t + 1 implies sa[j] == sb[j] by {
                assert(a[j] == b[j]);
                assert(a[t] == b[t]);
            }
            assert(sa =~= sb);
            let p = softmax_spec(sa);
            let wa = crate::transformer::weighted(p, va, c);
            let wb = crate::transformer::weighted(p, vb, c);
            assert forall|j: int| 0 <= j < p.len() implies wa[j] == wb[j] by {
                assert(a[j] == b[j]);
            }
            assert(wa =~= wb);
        }
        assert(ra =~= rb);
    }
}

proof fn lemma_after_attention_prefix<T: Scalar>(
    w: ToyLmWeights<T>,
    c: Config,
    l: int,
    a: Seq<Seq<T>>,
    b: Seq<Seq<T>>,
    n: int,
)
    requires
        n <= a.len(),
        n <= b.len(),
        agree(a, b, n),
    ensures
        agree(after_attention(w, c, l, a), after_attention(w, c, l, b), n),
{
    let qa = applied_rows(w.qkv@[l], norm_rows(a, w.ln1_gain@[l]@));
    let qb = applied_rows(w.qkv@[l], norm_rows(b, w.ln1_gain@[l]@));
    assert(agree(qa, qb, n)) by {
        assert forall|t: int| 0 <= t < n implies #[trigger] qa[t] == qb[t] by {
            assert(a[t] == b[t]);
        }
    }
    lemma_attended_prefix(qa, qb, c.dim as int, c.num_heads as int, n);
    let ta = attended(qa, c.dim as int, c.num_heads as int);
    let tb = attended(qb, c.dim as int, c.num_heads as int);
    assert forall|t: int| 0 <= t < n implies #[trigger] after_attention(w, c, l, a)[t]
        == after_attention(w, c, l, b)[t] by {
        assert(a[t] == b[t]);
        assert(ta[t] == tb[t]);
    }
}

proof fn lemma_hidden_prefix<T: Scalar>(
    w: ToyLmWeights<T>,
    c: Config,
    tokens: Seq<u32>,
    n: nat,
    l: nat,
)
    requires
        n <= tokens.len(),
    ensures
        hidden(w, c, tokens, l).len() == tokens.len(),
        hidden(w, c, tokens.take(n as int), l).len() == n,
        agree(hidden(w, c, tokens, l), hidden(w, c, tokens.take(n as int), l), n as int),
    decreases l,
{
    let front = tokens.take(n as int);
    if l > 0 {
        lemma_hidden_prefix(w, c, tokens, n, (l - 1) as nat);
        let a = hidden(w, c, tokens, (l - 1) as nat);
        let b = hidden(w, c, front, (l - 1) as nat);
        lemma_after_attention_prefix(w, c, l - 1, a, b, n as int);
        let ya = after_attention(w, c, l - 1, a);
        let yb = after_attention(w, c, l - 1, b);
        assert forall|t: int| 0 <= t < n implies #[trigger] hidden(w, c, tokens, l)[t] == hidden(
            w,
            c,
            front,
            l,
        )[t] by {
            assert(ya[t] == yb[t]);
        }
    }
}

/// The model is causal: the scores at a position depend on the tokens up to that position
/// alone. Those of the first `n` positions are the same whether or not more tokens follow.
pub proof fn law_forward_is_causal<T: Scalar>(lm: ToyLm<T>, tokens: Seq<u32>, n: nat)
    requires
        n <= tokens.len(),
    ensures
        logits_spec(lm, tokens).len() == tokens.len(),
        logits_spec(lm, tokens.take(n as int)).len() == n,
        forall|t: int|
            0 <= t < n ==> #[trigger] logits_spec(lm, tokens)[t] == logits_spec(
                lm,
                tokens.take(n as int),
            )[t],
{
    let l = lm.config.num_layers as nat;
    lemma_hidden_prefix(lm.weights, lm.config, tokens, n, l);
    let a = hidden(lm.weights, lm.config, tokens, l);
    let b = hidden(lm.weights, lm.config, tokens.take(n as int), l);
    assert forall|t: int| 0 <= t < n implies #[trigger] logits_spec(lm, tokens)[t] == logits_spec(
        lm,
        tokens.take(n as int),
    )[t] by {
        assert(a[t] == b[t]);
    }
}

proof fn lemma_hopfield_prefix<T: Scalar>(
    w: ToyLmWeights<T>,
    c: Config,
    tokens: Seq<u32>,
    beta: T,
    n: nat,
    l: nat,
)
    requires
        n <= tokens.len(),
    ensures
        hidden_hopfield(w, c, tokens, beta, l).len() == tokens.len(),
        hidden_hopfield(w, c, tokens.take(n as int), beta, l).len() == n,
        agree(
            hidden_hopfield(w, c, tokens, beta, l),
            hidden_hopfield(w, c, tokens.take(n as int), beta, l),
            n as int,
        ),
    decreases l,
{
    let front = tokens.take(n as int);
    if l > 0 {
        lemma_hopfield_prefix(w, c, tokens, beta, n, (l - 1) as nat);
        let a = hidden_hopfield(w, c, tokens, beta, (l - 1) as nat);
        let b = hidden_hopfield(w, c, front, beta, (l - 1) as nat);
        lemma_after_attention_prefix(w, c, l - 1, a, b, n as int);
        let ya = after_attention(w, c, l - 1, a);
        let yb = after_attention(w, c, l - 1, b);
        assert forall|t: int| 0 <= t < n implies #[trigger] hidden_hopfield(w, c, tokens, beta, l)[t]
            == hidden_hopfield(w, c, front, beta, l)[t] by {
            assert(ya[t] == yb[t]);
        }
    }
}

/// The model with retrieval is causal, too.
pub proof fn law_hopfield_forward_is_causal<T: Scalar>(
    lm: ToyLm<T>,
    tokens: Seq<u32>,
    beta: T,
    n: nat,
)
    requires
        n <= tokens.len(),
    ensures
        hopfield_logits_spec(lm, tokens, beta).len() == tokens.len(),
        hopfield_logits_spec(lm, tokens.take(n as int), beta).len() == n,
        forall|t: int|
            0 <= t < n ==> #[trigger] hopfield_logits_spec(lm, tokens, beta)[t]
                == hopfield_logits_spec(lm, tokens.take(n as int), beta)[t],
{
    let l = lm.config.num_layers as nat;
    lemma_hopfield_prefix(lm.weights, lm.config, tokens, beta, n, l);
    let a = hidden_hopfield(lm.weights, lm.config, tokens, beta, l);
    let b = hidden_hopfield(lm.weights, lm.config, tokens.take(n as int), beta, l);
    assert forall|t: int| 0 <= t < n implies #[trigger] hopfield_logits_spec(lm, tokens, beta)[t]
        == hopfield_logits_spec(lm, tokens.take(n as int), beta)[t] by {
        assert(a[t] == b[t]);
    }
}

} // verus!
