//! The forward pass with its intermediate values kept, and the gradients of the mean
//! next-token loss.

use vstd::prelude::*;
use crate::config::Config;
use crate::scalar::{
    add_four_scaled, add_scaled, dot, dot_spec, lemma_four_terms, products, sum_of, Scalar,
};
use crate::tensor::{copy_all, filled, lemma_cell_index, lemma_row_index, row_of, Matrix};
use crate::toy_lm::{
    after_attention, after_feed_forward, all_zero, attended, can_run, clamped_token, embed_tokens,
    embedded, filled_rows, gains_fit, has_shape, have_shape, hidden, logits_spec, sizes_fit,
    weights_fit, zero_matrices, ToyLm, ToyLmWeights,
};
use crate::transformer::{
    add_all, added, added_rows, applied_rows, apply_to_rows, causal_attention, gelu, gelu_all,
    gelu_deriv, gelu_deriv_spec, gelu_rows, head_scale, holds_rows, layernorm_fwd, lemma_added_rows,
    lemma_gelu_rows, lemma_rows_cell, lemma_rows_held, lemma_rows_read, max_of, mean_spec,
    norm_rows, one, push_row, row_at, row_parts, row_statistics, rows_of, rstd_spec, shifted_exps,
    split_qkv, weight_rows,
};

verus! {

/// What a forward pass keeps.
pub struct ForwardCache<T> {
    pub tokens: Vec<u32>,
    /// The embedded tokens.
    pub x_after_embed: Vec<T>,
    pub layers: Vec<LayerCache<T>>,
    /// The normalised last hidden state.
    pub x_final_norm: Vec<T>,
    pub logits: Vec<T>,
}

/// What a forward pass keeps of one layer.
pub struct LayerCache<T> {
    /// The hidden state in front of the layer.
    pub ln1_in: Vec<T>,
    pub ln1_out: Vec<T>,
    pub ln1_rstd: Vec<T>,
    /// The queries, keys and values.
    pub qkv_out: Vec<T>,
    /// The output of attention in front of its projection.
    pub attn_out: Vec<T>,
    /// The attention weights.
    pub attn_probs: Vec<T>,
    pub attn_proj_out: Vec<T>,
    /// The hidden state behind attention.
    pub ln2_in: Vec<T>,
    pub ln2_out: Vec<T>,
    pub ln2_rstd: Vec<T>,
    /// The first feed-forward projection, before and behind the activation.
    pub ff_up_pre: Vec<T>,
    pub ff_up_act: Vec<T>,
    pub ff_down_out: Vec<T>,
}

/// The inputs and outputs of the parts of a layer, when the hidden state in front of it
/// is `x`.
pub open spec fn layer_cached<T: Scalar>(
    lc: LayerCache<T>,
    w: ToyLmWeights<T>,
    c: Config,
    l: int,
    x: Seq<Seq<T>>,
) -> bool {
    let d = c.dim as nat;
    let f = c.ff_dim as nat;
    let nh = c.num_heads as int;
    let h1 = norm_rows(x, w.ln1_gain@[l]@);
    let qkv = applied_rows(w.qkv@[l], h1);
    let at = attended(qkv, d as int, nh);
    let x1 = after_attention(w, c, l, x);
    let h2 = norm_rows(x1, w.ln2_gain@[l]@);
    let up = applied_rows(w.ff_up@[l], h2);
    &&& holds_rows(lc.ln1_in@, d, x)
    &&& holds_rows(lc.ln1_out@, d, h1)
    &&& lc.ln1_rstd@ == x.map_values(|r: Seq<T>| rstd_spec(r))
    &&& holds_rows(lc.qkv_out@, (3 * d) as nat, qkv)
    &&& holds_rows(lc.attn_out@, d, at)
    &&& holds_rows(
        lc.attn_probs@,
        x.len(),
        weight_rows(row_parts(qkv, d, 0), row_parts(qkv, d, 1), d as int / nh, nh),
    )
    &&& holds_rows(lc.attn_proj_out@, d, applied_rows(w.attn_out@[l], at))
    &&& holds_rows(lc.ln2_in@, d, x1)
    &&& holds_rows(lc.ln2_out@, d, h2)
    &&& lc.ln2_rstd@ == x1.map_values(|r: Seq<T>| rstd_spec(r))
    &&& holds_rows(lc.ff_up_pre@, f, up)
    &&& holds_rows(lc.ff_up_act@, f, gelu_rows(up))
    &&& holds_rows(lc.ff_down_out@, d, applied_rows(w.ff_down@[l], gelu_rows(up)))
}

/// Whether the cache holds what the forward pass over its tokens computes.
pub open spec fn cached<T: Scalar>(cache: ForwardCache<T>, lm: ToyLm<T>) -> bool {
    let w = lm.weights;
    let c = lm.config;
    let tokens = cache.tokens@;
    &&& holds_rows(cache.x_after_embed@, c.dim as nat, embedded(w.token_embed, tokens))
    &&& cache.layers@.len() == c.num_layers
    &&& forall|l: int|
        0 <= l < c.num_layers ==> layer_cached(
            #[trigger] cache.layers@[l],
            w,
            c,
            l,
            hidden(w, c, tokens, l as nat),
        )
    &&& holds_rows(
        cache.x_final_norm@,
        c.dim as nat,
        norm_rows(hidden(w, c, tokens, c.num_layers as nat), w.ln_f_gain@),
    )
    &&& holds_rows(cache.logits@, c.vocab_size as nat, logits_spec(lm, tokens))
}

/// Runs one layer and keeps its intermediate values. Returns them with the hidden state
/// behind the layer.
fn layer_fwd<T: Scalar>(x: &Vec<T>, seq: usize, w: &ToyLmWeights<T>, c: &Config, l: usize) -> (r: (
    LayerCache<T>,
    Vec<T>,
))
    requires
        weights_fit(*w, *c),
        l < c.num_layers,
        c.num_heads > 0,
        x@.len() == seq * c.dim,
    ensures
        layer_cached(
            r.0,
            *w,
            *c,
            l as int,
            rows_of(x@, seq as nat, c.dim as nat),
        ),
        holds_rows(
            r.1@,
            c.dim as nat,
            after_feed_forward(
                *w,
                l as int,
                after_attention(*w, *c, l as int, rows_of(x@, seq as nat, c.dim as nat)),
            ),
        ),
{
    let d: usize = c.dim;
    let f: usize = c.ff_dim;
    let ghost xs = rows_of(x@, seq as nat, d as nat);
    proof {
        assert(has_shape(w.qkv@[l as int], 3 * d, d as int));
        assert(has_shape(w.attn_out@[l as int], d as int, d as int));
        assert(has_shape(w.ff_up@[l as int], f as int, d as int));
        assert(has_shape(w.ff_down@[l as int], d as int, f as int));
        assert(w.ln1_gain@[l as int]@.len() == d);
        assert(w.ln2_gain@[l as int]@.len() == d);
        lemma_rows_held(x@, seq as nat, d as nat);
    }
    let (ln1_out, ln1_rstd) = layernorm_fwd(x, seq, d, &w.ln1_gain[l]);
    let ghost hs = norm_rows(xs, w.ln1_gain@[l as int]@);
    proof {
        lemma_rows_read(ln1_out@, d as nat, hs);
    }
    let qkv_out = apply_to_rows(&ln1_out, seq, &w.qkv[l]);
    let ghost qs = applied_rows(w.qkv@[l as int], hs);
    proof {
        lemma_rows_read(qkv_out@, (3 * d) as nat, qs);
    }
    let (attn_out, attn_probs) = causal_attn_fwd(&qkv_out, seq, d, c.num_heads);
    let ghost at = attended(qs, d as int, c.num_heads as int);
    proof {
        lemma_rows_read(attn_out@, d as nat, at);
    }
    let attn_proj_out = apply_to_rows(&attn_out, seq, &w.attn_out[l]);
    let ln2_in = add_all(x, &attn_proj_out);
    let ghost x1 = after_attention(*w, *c, l as int, xs);
    proof {
        lemma_added_rows(
            x@,
            attn_proj_out@,
            d as nat,
            xs,
            applied_rows(w.attn_out@[l as int], at),
        );
        lemma_rows_read(ln2_in@, d as nat, x1);
    }
    let (ln2_out, ln2_rstd) = layernorm_fwd(&ln2_in, seq, d, &w.ln2_gain[l]);
    let ghost h2 = norm_rows(x1, w.ln2_gain@[l as int]@);
    proof {
        lemma_rows_read(ln2_out@, d as nat, h2);
    }
    let ff_up_pre = apply_to_rows(&ln2_out, seq, &w.ff_up[l]);
    let ghost us = applied_rows(w.ff_up@[l as int], h2);
    let ff_up_act = gelu_copy(&ff_up_pre);
    proof {
        lemma_gelu_rows(ff_up_pre@, f as nat, us);
        lemma_rows_read(ff_up_act@, f as nat, gelu_rows(us));
    }
    let ff_down_out = apply_to_rows(&ff_up_act, seq, &w.ff_down[l]);
    let out = add_all(&ln2_in, &ff_down_out);
    proof {
        lemma_added_rows(
            ln2_in@,
            ff_down_out@,
            d as nat,
            x1,
            applied_rows(w.ff_down@[l as int], gelu_rows(us)),
        );
    }
    let lc = LayerCache {
        ln1_in: copy_all(x),
        ln1_out,
        ln1_rstd,
        qkv_out,
        attn_out,
        attn_probs,
        attn_proj_out,
        ln2_in,
        ln2_out,
        ln2_rstd,
        ff_up_pre,
        ff_up_act,
        ff_down_out,
    };
    (lc, out)
}

/// The activation of every number.
fn gelu_copy<T: Scalar>(x: &Vec<T>) -> (r: Vec<T>)
    ensures
        r@ == gelu_all(x@),
{
    let mut out: Vec<T> = Vec::with_capacity(x.len());
    for i in 0..x.len()
        invariant
            out@ == gelu_all(x@).take(i as int),
    {
        out.push(gelu(x[i]));
        assert(out@ =~= gelu_all(x@).take(i + 1));
    }
    assert(out@ =~= gelu_all(x@));
    out
}

/// Causal attention over rows of queries, keys and values. Returns the output and the
/// weights.
pub fn causal_attn_fwd<T: Scalar>(qkv: &Vec<T>, seq: usize, dim: usize, num_heads: usize) -> (r: (
    Vec<T>,
    Vec<T>,
))
    requires
        num_heads > 0,
        3 * dim <= usize::MAX,
        qkv@.len() == seq * (3 * dim),
    ensures
        ({
            let rows = rows_of(qkv@, seq as nat, (3 * dim) as nat);
            let d = dim as nat;
            &&& holds_rows(r.0@, d, attended(rows, dim as int, num_heads as int))
            &&& holds_rows(
                r.1@,
                seq as nat,
                weight_rows(
                    row_parts(rows, d, 0),
                    row_parts(rows, d, 1),
                    dim as int / num_heads as int,
                    num_heads as int,
                ),
            )
        }),
{
    let ghost rows = rows_of(qkv@, seq as nat, (3 * dim) as nat);
    let (q, k, v) = split_qkv(qkv, seq, dim);
    proof {
        lemma_rows_read(q@, dim as nat, row_parts(rows, dim as nat, 0));
        lemma_rows_read(k@, dim as nat, row_parts(rows, dim as nat, 1));
        lemma_rows_read(v@, dim as nat, row_parts(rows, dim as nat, 2));
    }
    causal_attention(&q, &k, &v, seq, dim, num_heads)
}

/// The forward pass with its intermediate values. Returns them and the scores of the next
/// token, which are those of [`ToyLm::forward`].
pub fn forward_cached<T: Scalar>(lm: &ToyLm<T>, tokens: &[u32]) -> (r: (ForwardCache<T>, Vec<T>))
    requires
        lm.wf(),
        can_run(lm.config, tokens@.len()),
    ensures
        r.0.tokens@ == tokens@,
        cached(r.0, *lm),
        r.1@ == r.0.logits@,
{
    let c = &lm.config;
    let w = &lm.weights;
    let seq: usize = tokens.len();
    let x = embed_tokens(&w.token_embed, tokens);
    let mut layers: Vec<LayerCache<T>> = Vec::with_capacity(c.num_layers);
    let mut residual = copy_all(&x);
    for l in 0..c.num_layers
        invariant
            lm.wf(),
            *c == lm.config,
            *w == lm.weights,
            seq == tokens@.len(),
            can_run(lm.config, tokens@.len()),
            holds_rows(residual@, c.dim as nat, hidden(*w, *c, tokens@, l as nat)),
            hidden(*w, *c, tokens@, l as nat).len() == seq,
            layers@.len() == l,
            forall|k: int|
                0 <= k < l ==> layer_cached(
                    #[trigger] layers@[k],
                    *w,
                    *c,
                    k,
                    hidden(*w, *c, tokens@, k as nat),
                ),
    {
        proof {
            lemma_rows_read(residual@, c.dim as nat, hidden(*w, *c, tokens@, l as nat));
        }
        let (lc, next) = layer_fwd(&residual, seq, w, c, l);
        layers.push(lc);
        residual = next;
    }
    let ghost last = hidden(*w, *c, tokens@, c.num_layers as nat);
    proof {
        lemma_rows_read(residual@, c.dim as nat, last);
    }
    let (x_final_norm, rstd) = layernorm_fwd(&residual, seq, c.dim, &w.ln_f_gain);
    proof {
        lemma_rows_read(x_final_norm@, c.dim as nat, norm_rows(last, w.ln_f_gain@));
    }
    let logits = apply_to_rows(&x_final_norm, seq, &w.token_embed);
    let copy = copy_all(&logits);
    let cache = ForwardCache {
        tokens: copy_all(tokens),
        x_after_embed: x,
        layers,
        x_final_norm,
        logits,
    };
    (cache, copy)
}

/// Column `j` of rows.
pub open spec fn column<T>(rows: Seq<Seq<T>>, j: int) -> Seq<T> {
    rows.map_values(|r: Seq<T>| r[j])
}

/// Whether a number is zero.
pub open spec fn is_zero<T: Scalar>(x: T) -> bool {
    x.at_most_spec(T::spec_zero()) && T::spec_zero().at_most_spec(x)
}

/// The sum of the products of the first `n` numbers, leaving out those where `d` is zero.
pub open spec fn skip_sum<T: Scalar>(d: Seq<T>, x: Seq<T>, n: nat) -> T
    decreases n,
{
    if n == 0 {
        T::spec_zero()
    } else {
        let front = skip_sum(d, x, (n - 1) as nat);
        if is_zero(d[n - 1]) {
            front
        } else {
            front.plus_spec(d[n - 1].times_spec(x[n - 1]))
        }
    }
}

fn test_zero<T: Scalar>(x: T) -> (r: bool)
    ensures
        r == is_zero(x),
{
    x.at_most(T::zero()) && T::zero().at_most(x)
}

/// The gradient of a weight matrix `[dcols, acols]`, from the gradients `d` of its outputs
/// and its inputs `a`: in each cell the sum over the positions.
pub open spec fn outer_rows<T: Scalar>(
    d: Seq<Seq<T>>,
    a: Seq<Seq<T>>,
    dcols: nat,
    acols: nat,
) -> Seq<Seq<T>> {
    Seq::new(
        dcols,
        |i: int| Seq::new(acols, |j: int| skip_sum(column(d, i), column(a, j), d.len())),
    )
}

/// A number with a product added, unless the first factor is zero.
pub open spec fn plus_unless_zero<T: Scalar>(acc: T, d: T, x: T) -> T {
    if is_zero(d) {
        acc
    } else {
        acc.plus_spec(d.times_spec(x))
    }
}

/// Adds to each number the products of the four factors with the numbers at the same place,
/// leaving out factors that are zero.
fn add_four_unless_zero<T: Scalar>(acc: &mut Vec<T>, f: [T; 4], a: &[T], b: &[T], c: &[T], d: &[T])
    requires
        old(acc)@.len() == a@.len(),
        b@.len() == a@.len(),
        c@.len() == a@.len(),
        d@.len() == a@.len(),
    ensures
        final(acc)@.len() == a@.len(),
        forall|j: int|
            0 <= j < a@.len() ==> #[trigger] final(acc)@[j] == plus_unless_zero(
                plus_unless_zero(
                    plus_unless_zero(plus_unless_zero(old(acc)@[j], f@[0], a@[j]), f@[1], b@[j]),
                    f@[2],
                    c@[j],
                ),
                f@[3],
                d@[j],
            ),
{
    if test_zero(f[0]) || test_zero(f[1]) || test_zero(f[2]) || test_zero(f[3]) {
        if !test_zero(f[0]) {
            add_scaled(acc, f[0], a);
        }
        if !test_zero(f[1]) {
            add_scaled(acc, f[1], b);
        }
        if !test_zero(f[2]) {
            add_scaled(acc, f[2], c);
        }
        if !test_zero(f[3]) {
            add_scaled(acc, f[3], d);
        }
    } else {
        add_four_scaled(acc, f, a, b, c, d);
    }
}

/// The gradient of a weight matrix.
fn outer_grad<T: Scalar>(d: &Vec<T>, dcols: usize, a: &Vec<T>, acols: usize, seq: usize) -> (r: Matrix<
    T,
>)
    requires
        d@.len() == seq * dcols,
        a@.len() == seq * acols,
    ensures
        r.wf(),
        r.rows == dcols,
        r.cols == acols,
        holds_rows(
            r.data@,
            acols as nat,
            outer_rows(
                rows_of(d@, seq as nat, dcols as nat),
                rows_of(a@, seq as nat, acols as nat),
                dcols as nat,
                acols as nat,
            ),
        ),
{
    let ghost ds = rows_of(d@, seq as nat, dcols as nat);
    let ghost xs = rows_of(a@, seq as nat, acols as nat);
    let ghost goal = outer_rows(ds, xs, dcols as nat, acols as nat);
    let mut data: Vec<T> = Vec::new();
    assert(0 * acols == 0) by (nonlinear_arith);
    for i in 0..dcols
        invariant
            d@.len() == seq * dcols,
            a@.len() == seq * acols,
            ds == rows_of(d@, seq as nat, dcols as nat),
            xs == rows_of(a@, seq as nat, acols as nat),
            goal == outer_rows(ds, xs, dcols as nat, acols as nat),
            holds_rows(data@, acols as nat, goal.take(i as int)),
    {
        let ghost dc = column(ds, i as int);
        let mut row = filled(acols, T::zero());
        let mut t: usize = 0;
        while 4 <= seq - t
            invariant
                i < dcols,
                d@.len() == seq * dcols,
                a@.len() == seq * acols,
                ds == rows_of(d@, seq as nat, dcols as nat),
                xs == rows_of(a@, seq as nat, acols as nat),
                dc == column(ds, i as int),
                row@.len() == acols,
                forall|j: int|
                    0 <= j < acols ==> #[trigger] row@[j] == skip_sum(dc, column(xs, j), t as nat),
                t <= seq,
            decreases seq - t,
        {
            let d0 = row_at(d, dcols, t, Ghost(seq as int))[i];
            let d1 = row_at(d, dcols, t + 1, Ghost(seq as int))[i];
            let d2 = row_at(d, dcols, t + 2, Ghost(seq as int))[i];
            let d3 = row_at(d, dcols, t + 3, Ghost(seq as int))[i];
            let x0 = row_at(a, acols, t, Ghost(seq as int));
            let x1 = row_at(a, acols, t + 1, Ghost(seq as int));
            let x2 = row_at(a, acols, t + 2, Ghost(seq as int));
            let x3 = row_at(a, acols, t + 3, Ghost(seq as int));
            let ghost before = row@;
            add_four_unless_zero(&mut row, [d0, d1, d2, d3], x0, x1, x2, x3);
            assert forall|j: int| 0 <= j < acols implies #[trigger] row@[j] == skip_sum(
                dc,
                column(xs, j),
                (t + 4) as nat,
            ) by {
                let xc = column(xs, j);
                assert(before[j] == skip_sum(dc, xc, t as nat));
                assert(dc[t as int] == d0 && dc[t + 1] == d1 && dc[t + 2] == d2 && dc[t + 3] == d3);
                assert(xc[t as int] == x0@[j] && xc[t + 1] == x1@[j] && xc[t + 2] == x2@[j] && xc[t
                    + 3] == x3@[j]);
                assert(skip_sum(dc, xc, (t + 1) as nat) == plus_unless_zero(before[j], d0, x0@[j]));
                assert(skip_sum(dc, xc, (t + 2) as nat) == plus_unless_zero(
                    skip_sum(dc, xc, (t + 1) as nat),
                    d1,
                    x1@[j],
                ));
                assert(skip_sum(dc, xc, (t + 3) as nat) == plus_unless_zero(
                    skip_sum(dc, xc, (t + 2) as nat),
                    d2,
                    x2@[j],
                ));
                assert(skip_sum(dc, xc, (t + 4) as nat) == plus_unless_zero(
                    skip_sum(dc, xc, (t + 3) as nat),
                    d3,
                    x3@[j],
                ));
            }
            t = t + 4;
        }
        for t in t..seq
            invariant
                i < dcols,
                d@.len() == seq * dcols,
                a@.len() == seq * acols,
                ds == rows_of(d@, seq as nat, dcols as nat),
                xs == rows_of(a@, seq as nat, acols as nat),
                dc == column(ds, i as int),
                row@.len() == acols,
                forall|j: int|
                    0 <= j < acols ==> #[trigger] row@[j] == skip_sum(dc, column(xs, j), t as nat),
        {
            let dl = row_at(d, dcols, t, Ghost(seq as int))[i];
            assert(dl == dc[t as int]);
            if !test_zero(dl) {
                let x = row_at(a, acols, t, Ghost(seq as int));
                let ghost before = row@;
                add_scaled(&mut row, dl, x);
                assert forall|j: int| 0 <= j < acols implies #[trigger] row@[j] == skip_sum(
                    dc,
                    column(xs, j),
                    (t + 1) as nat,
                ) by {
                    assert(before[j] == skip_sum(dc, column(xs, j), t as nat));
                    assert(column(xs, j)[t as int] == x@[j]);
                }
            }
        }
        assert(row@ =~= goal[i as int]);
        assert(goal.take(i + 1) =~= goal.take(i as int).push(row@));
        push_row(&mut data, row, Ghost(acols as nat), Ghost(goal.take(i as int)));
    }
    assert(goal.take(dcols as int) =~= goal);
    Matrix { rows: dcols, cols: acols, data }
}

/// The rows of a matrix.
pub open spec fn matrix_rows<T>(w: Matrix<T>) -> Seq<Seq<T>> {
    rows_of(w.data@, w.rows as nat, w.cols as nat)
}

/// The gradient of the inputs of a weight matrix from that of its outputs.
pub open spec fn back_rows<T: Scalar>(w: Matrix<T>, d: Seq<Seq<T>>) -> Seq<Seq<T>> {
    d.map_values(
        |r: Seq<T>| Seq::new(w.cols as nat, |j: int| dot_spec(r, column(matrix_rows(w), j))),
    )
}

/// The gradient of the inputs of a weight matrix from that of its outputs.
fn back_through<T: Scalar>(d: &Vec<T>, seq: usize, w: &Matrix<T>) -> (r: Vec<T>)
    requires
        w.wf(),
        d@.len() == seq * w.rows,
    ensures
        holds_rows(
            r@,
            w.cols as nat,
            back_rows(*w, rows_of(d@, seq as nat, w.rows as nat)),
        ),
{
    let ghost ds = rows_of(d@, seq as nat, w.rows as nat);
    let ghost ws = matrix_rows(*w);
    let ghost goal = back_rows(*w, ds);
    let mut out: Vec<T> = Vec::new();
    assert(0 * w.cols == 0) by (nonlinear_arith);
    for t in 0..seq
        invariant
            w.wf(),
            d@.len() == seq * w.rows,
            ds == rows_of(d@, seq as nat, w.rows as nat),
            ws == matrix_rows(*w),
            goal == back_rows(*w, ds),
            holds_rows(out@, w.cols as nat, goal.take(t as int)),
    {
        let drow = row_at(d, w.rows, t, Ghost(seq as int));
        let mut row = filled(w.cols, T::zero());
        let mut i: usize = 0;
        while 4 <= w.rows - i
            invariant
                w.wf(),
                drow@.len() == w.rows,
                ws == matrix_rows(*w),
                i <= w.rows,
                row@.len() == w.cols,
                forall|j: int|
                    0 <= j < w.cols ==> #[trigger] row@[j] == sum_of(
                        products(drow@, column(ws, j)),
                        i as nat,
                    ),
            decreases w.rows - i,
        {
            let a = row_at(&w.data, w.cols, i, Ghost(w.rows as int));
            let b = row_at(&w.data, w.cols, i + 1, Ghost(w.rows as int));
            let c = row_at(&w.data, w.cols, i + 2, Ghost(w.rows as int));
            let e = row_at(&w.data, w.cols, i + 3, Ghost(w.rows as int));
            let ghost before = row@;
            add_four_scaled(&mut row, [drow[i], drow[i + 1], drow[i + 2], drow[i + 3]], a, b, c, e);
            assert forall|j: int| 0 <= j < w.cols implies #[trigger] row@[j] == sum_of(
                products(drow@, column(ws, j)),
                (i + 4) as nat,
            ) by {
                let terms = products(drow@, column(ws, j));
                assert(before[j] == sum_of(terms, i as nat));
                assert(column(ws, j)[i as int] == a@[j]);
                assert(column(ws, j)[i + 1] == b@[j]);
                assert(column(ws, j)[i + 2] == c@[j]);
                assert(column(ws, j)[i + 3] == e@[j]);
                lemma_four_terms(terms, i as nat);
            }
            i = i + 4;
        }
        for i in i..w.rows
            invariant
                w.wf(),
                drow@.len() == w.rows,
                ws == matrix_rows(*w),
                row@.len() == w.cols,
                forall|j: int|
                    0 <= j < w.cols ==> #[trigger] row@[j] == sum_of(
                        products(drow@, column(ws, j)),
                        i as nat,
                    ),
        {
            let wrow = row_at(&w.data, w.cols, i, Ghost(w.rows as int));
            let ghost before = row@;
            add_scaled(&mut row, drow[i], wrow);
            assert forall|j: int| 0 <= j < w.cols implies #[trigger] row@[j] == sum_of(
                products(drow@, column(ws, j)),
                (i + 1) as nat,
            ) by {
                let terms = products(drow@, column(ws, j));
                assert(before[j] == sum_of(terms, i as nat));
                assert(column(ws, j)[i as int] == wrow@[j]);
                assert(terms[i as int] == drow@[i as int].times_spec(wrow@[j]));
            }
        }
        assert(row@ =~= goal[t as int]);
        assert(goal.take(t + 1) =~= goal.take(t as int).push(row@));
        push_row(&mut out, row, Ghost(w.cols as nat), Ghost(goal.take(t as int)));
    }
    assert(goal.take(seq as int) =~= goal);
    out
}

/// A row with its mean taken away and divided by its standard deviation.
pub open spec fn standardized<T: Scalar>(row: Seq<T>) -> Seq<T> {
    row.map_values(|v: T| v.minus_spec(mean_spec(row)).times_spec(rstd_spec(row)))
}

/// The gradient of a row's scaled values.
pub open spec fn scaled_grad<T: Scalar>(dy: Seq<T>, gain: Seq<T>) -> Seq<T> {
    Seq::new(dy.len(), |j: int| dy[j].times_spec(gain[j]))
}

/// The gradient of a row in front of a normalisation, from that behind it.
pub open spec fn norm_back_row<T: Scalar>(row: Seq<T>, dy: Seq<T>, gain: Seq<T>) -> Seq<T> {
    let xn = standardized(row);
    let g = scaled_grad(dy, gain);
    let n = T::spec_count(row.len() as usize);
    let m1 = sum_of(g, g.len()).over_spec(n);
    let m2 = sum_of(products(g, xn), row.len()).over_spec(n);
    Seq::new(
        row.len(),
        |j: int|
            rstd_spec(row).times_spec(
                g[j].minus_spec(m1).minus_spec(xn[j].times_spec(m2)),
            ),
    )
}

/// The gradients of rows in front of a normalisation.
pub open spec fn norm_back_rows<T: Scalar>(
    x: Seq<Seq<T>>,
    dy: Seq<Seq<T>>,
    gain: Seq<T>,
) -> Seq<Seq<T>> {
    Seq::new(x.len(), |t: int| norm_back_row(x[t], dy[t], gain))
}

/// The gradient of gain `j`, summed over the first `n` rows.
pub open spec fn gain_grad_upto<T: Scalar>(
    x: Seq<Seq<T>>,
    dy: Seq<Seq<T>>,
    j: int,
    n: nat,
) -> T
    decreases n,
{
    if n == 0 {
        T::spec_zero()
    } else {
        gain_grad_upto(x, dy, j, (n - 1) as nat).plus_spec(
            dy[n - 1][j].times_spec(standardized(x[n - 1])[j]),
        )
    }
}

/// The gradients of the gains.
pub open spec fn gain_grads<T: Scalar>(x: Seq<Seq<T>>, dy: Seq<Seq<T>>, dim: nat) -> Seq<T> {
    Seq::new(dim, |j: int| gain_grad_upto(x, dy, j, x.len()))
}

/// The gradients through a normalisation: of the rows in front of it, and of its gains.
pub fn layernorm_bwd<T: Scalar>(x: &Vec<T>, seq: usize, dim: usize, dout: &Vec<T>, gain: &Vec<T>) -> (r: (
    Vec<T>,
    Vec<T>,
))
    requires
        x@.len() == seq * dim,
        dout@.len() == seq * dim,
        gain@.len() == dim,
    ensures
        ({
            let xs = rows_of(x@, seq as nat, dim as nat);
            let dys = rows_of(dout@, seq as nat, dim as nat);
            &&& holds_rows(r.0@, dim as nat, norm_back_rows(xs, dys, gain@))
            &&& r.1@ == gain_grads(xs, dys, dim as nat)
        }),
{
    let ghost xs = rows_of(x@, seq as nat, dim as nat);
    let ghost dys = rows_of(dout@, seq as nat, dim as nat);
    let ghost goal = norm_back_rows(xs, dys, gain@);
    let mut dx: Vec<T> = Vec::new();
    let mut dgain: Vec<T> = filled(dim, T::zero());
    let count = T::from_count(dim);
    assert(0 * dim == 0) by (nonlinear_arith);
    for t in 0..seq
        invariant
            x@.len() == seq * dim,
            dout@.len() == seq * dim,
            gain@.len() == dim,
            count == T::spec_count(dim),
            xs == rows_of(x@, seq as nat, dim as nat),
            dys == rows_of(dout@, seq as nat, dim as nat),
            goal == norm_back_rows(xs, dys, gain@),
            holds_rows(dx@, dim as nat, goal.take(t as int)),
            dgain@.len() == dim,
            forall|j: int|
                0 <= j < dim ==> #[trigger] dgain@[j] == gain_grad_upto(xs, dys, j, t as nat),
    {
        let row = row_at(x, dim, t, Ghost(seq as int));
        let dy = row_at(dout, dim, t, Ghost(seq as int));
        let (mean, rstd) = row_statistics(row);
        let ghost xn = standardized(row@);
        let ghost g = scaled_grad(dy@, gain@);
        let ghost gx = products(g, xn);
        let ghost before = dgain@;
        let mut m1 = T::zero();
        let mut m2 = T::zero();
        for j in 0..dim
            invariant
                row@.len() == dim,
                dy@.len() == dim,
                gain@.len() == dim,
                mean == mean_spec(row@),
                rstd == rstd_spec(row@),
                xn == standardized(row@),
                g == scaled_grad(dy@, gain@),
                gx == products(g, xn),
                m1 == sum_of(g, j as nat),
                m2 == sum_of(gx, j as nat),
                dgain@.len() == dim,
                before.len() == dim,
                forall|k: int|
                    0 <= k < j ==> #[trigger] dgain@[k] == before[k].plus_spec(
                        dy@[k].times_spec(xn[k]),
                    ),
                forall|k: int| j <= k < dim ==> #[trigger] dgain@[k] == before[k],
        {
            let xnorm = row[j].minus(mean).times(rstd);
            let dy_norm = dy[j].times(gain[j]);
            dgain[j] = dgain[j].plus(dy[j].times(xnorm));
            m1 = m1.plus(dy_norm);
            m2 = m2.plus(dy_norm.times(xnorm));
        }
        let m1 = m1.over(count);
        let m2 = m2.over(count);
        let ghost want = norm_back_row(row@, dy@, gain@);
        let mut new_row: Vec<T> = Vec::with_capacity(dim);
        for j in 0..dim
            invariant
                row@.len() == dim,
                dy@.len() == dim,
                gain@.len() == dim,
                mean == mean_spec(row@),
                rstd == rstd_spec(row@),
                xn == standardized(row@),
                g == scaled_grad(dy@, gain@),
                m1 == sum_of(g, g.len()).over_spec(T::spec_count(dim)),
                m2 == sum_of(products(g, xn), row@.len()).over_spec(T::spec_count(dim)),
                want == norm_back_row(row@, dy@, gain@),
                new_row@ == want.take(j as int),
        {
            let xnorm = row[j].minus(mean).times(rstd);
            let dy_norm = dy[j].times(gain[j]);
            new_row.push(rstd.times(dy_norm.minus(m1).minus(xnorm.times(m2))));
            assert(new_row@ =~= want.take(j + 1));
        }
        assert(new_row@ =~= want);
        assert(goal.take(t + 1) =~= goal.take(t as int).push(new_row@));
        push_row(&mut dx, new_row, Ghost(dim as nat), Ghost(goal.take(t as int)));
        assert forall|j: int| 0 <= j < dim implies #[trigger] dgain@[j] == gain_grad_upto(
            xs,
            dys,
            j,
            (t + 1) as nat,
        ) by {
            assert(before[j] == gain_grad_upto(xs, dys, j, t as nat));
        }
    }
    assert(goal.take(seq as int) =~= goal);
    assert(dgain@ =~= gain_grads(xs, dys, dim as nat));
    (dx, dgain)
}

/// The gradients of the weights that position `i` gives in head `h`.
pub open spec fn weight_grads<T: Scalar>(
    qkv: Seq<Seq<T>>,
    dout: Seq<Seq<T>>,
    dim: int,
    head_dim: int,
    h: int,
    i: int,
) -> Seq<T> {
    Seq::new(
        (i + 1) as nat,
        |j: int|
            dot_spec(row_of(dout[i], head_dim, h), row_of(row_of(qkv[j], dim, 2), head_dim, h)),
    )
}

/// The gradients of the scores that the weights `p` come from, from the gradients `dp` of
/// the weights.
pub open spec fn softmax_back<T: Scalar>(p: Seq<T>, dp: Seq<T>) -> Seq<T> {
    Seq::new(
        dp.len(),
        |j: int|
            p[j].times_spec(dp[j].minus_spec(sum_of(products(p, dp), dp.len()))),
    )
}

/// The gradients of the scores of position `i` in head `h`.
pub open spec fn score_grads<T: Scalar>(
    probs: Seq<Seq<T>>,
    qkv: Seq<Seq<T>>,
    dout: Seq<Seq<T>>,
    dim: int,
    num_heads: int,
    h: int,
    i: int,
) -> Seq<T> {
    softmax_back(
        probs[i * num_heads + h],
        weight_grads(qkv, dout, dim, dim / num_heads, h, i),
    )
}

/// What the keys add to column `c` of a query's gradient, when `g` are the gradients of the
/// scores.
pub open spec fn query_terms<T: Scalar>(g: Seq<T>, qkv: Seq<Seq<T>>, dim: int, c: int) -> Seq<T> {
    Seq::new(g.len(), |j: int| g[j].times_spec(row_of(qkv[j], dim, 1)[c]))
}

/// The gradient of column `c` of the query at position `i`.
pub open spec fn query_grad<T: Scalar>(
    probs: Seq<Seq<T>>,
    qkv: Seq<Seq<T>>,
    dout: Seq<Seq<T>>,
    dim: int,
    num_heads: int,
    i: int,
    c: int,
) -> T {
    let hd = dim / num_heads;
    let ds = score_grads(probs, qkv, dout, dim, num_heads, c / hd, i);
    let terms = query_terms(ds, qkv, dim, c);
    T::spec_zero().plus_spec(sum_of(terms, terms.len()).times_spec(head_scale::<T>(hd)))
}

/// The gradient of column `c` of the key at position `j`, from the positions below `n`.
pub open spec fn key_grad_upto<T: Scalar>(
    probs: Seq<Seq<T>>,
    qkv: Seq<Seq<T>>,
    dout: Seq<Seq<T>>,
    dim: int,
    num_heads: int,
    j: int,
    c: int,
    n: nat,
) -> T
    decreases n,
{
    if n <= j || n == 0 {
        T::spec_zero()
    } else {
        let hd = dim / num_heads;
        let i = n - 1;
        key_grad_upto(probs, qkv, dout, dim, num_heads, j, c, i as nat).plus_spec(
            score_grads(probs, qkv, dout, dim, num_heads, c / hd, i)[j].times_spec(
                row_of(qkv[i], dim, 0)[c],
            ).times_spec(head_scale::<T>(hd)),
        )
    }
}

/// The gradient of column `c` of the value at position `j`, from the positions below `n`.
pub open spec fn value_grad_upto<T: Scalar>(
    probs: Seq<Seq<T>>,
    dout: Seq<Seq<T>>,
    dim: int,
    num_heads: int,
    j: int,
    c: int,
    n: nat,
) -> T
    decreases n,
{
    if n <= j || n == 0 {
        T::spec_zero()
    } else {
        let hd = dim / num_heads;
        let i = n - 1;
        value_grad_upto(probs, dout, dim, num_heads, j, c, i as nat).plus_spec(
            probs[i * num_heads + c / hd][j].times_spec(dout[i][c]),
        )
    }
}

/// The gradients of the query, the key and the value at position `j`, one behind the
/// other. Columns behind the last head have none.
pub open spec fn attention_back_row<T: Scalar>(
    probs: Seq<Seq<T>>,
    qkv: Seq<Seq<T>>,
    dout: Seq<Seq<T>>,
    dim: int,
    num_heads: int,
    j: int,
) -> Seq<T> {
    let used = num_heads * (dim / num_heads);
    let n = qkv.len();
    Seq::new(
        dim as nat,
        |c: int|
            if c < used {
                query_grad(probs, qkv, dout, dim, num_heads, j, c)
            } else {
                T::spec_zero()
            },
    ) + Seq::new(
        dim as nat,
        |c: int|
            if c < used {
                key_grad_upto(probs, qkv, dout, dim, num_heads, j, c, n)
            } else {
                T::spec_zero()
            },
    ) + Seq::new(
        dim as nat,
        |c: int|
            if c < used {
                value_grad_upto(probs, dout, dim, num_heads, j, c, n)
            } else {
                T::spec_zero()
            },
    )
}

/// The gradients of all queries, keys and values.
pub open spec fn attention_back_rows<T: Scalar>(
    probs: Seq<Seq<T>>,
    qkv: Seq<Seq<T>>,
    dout: Seq<Seq<T>>,
    dim: int,
    num_heads: int,
) -> Seq<Seq<T>> {
    Seq::new(
        qkv.len(),
        |j: int| attention_back_row(probs, qkv, dout, dim, num_heads, j),
    )
}

/// The gradients of the scores of one position in one head.
fn compute_score_grads<T: Scalar>(
    probs: &Vec<T>,
    qkv: &Vec<T>,
    dout: &Vec<T>,
    seq: usize,
    dim: usize,
    num_heads: usize,
    h: usize,
    i: usize,
) -> (r: Vec<T>)
    requires
        num_heads > 0,
        i < seq,
        h < num_heads,
        3 * dim <= usize::MAX,
        seq * num_heads <= usize::MAX,
        probs@.len() == (seq * num_heads) * seq,
        qkv@.len() == seq * (3 * dim),
        dout@.len() == seq * dim,
    ensures
        r@ == score_grads(
            rows_of(probs@, (seq * num_heads) as nat, seq as nat),
            rows_of(qkv@, seq as nat, (3 * dim) as nat),
            rows_of(dout@, seq as nat, dim as nat),
            dim as int,
            num_heads as int,
            h as int,
            i as int,
        ),
        r@.len() == i + 1,
{
    let head_dim: usize = dim / num_heads;
    let ghost ps = rows_of(probs@, (seq * num_heads) as nat, seq as nat);
    let ghost qs = rows_of(qkv@, seq as nat, (3 * dim) as nat);
    let ghost ds = rows_of(dout@, seq as nat, dim as nat);
    proof {
        vstd::arithmetic::div_mod::lemma_fundamental_div_mod(dim as int, num_heads as int);
        crate::tensor::lemma_cell_index(seq as int, num_heads as int, i as int, h as int);
    }
    let p = row_at(probs, seq, i * num_heads + h, Ghost((seq * num_heads) as int));
    let drow = row_at(dout, dim, i, Ghost(seq as int));
    let dhead = row_at(drow, head_dim, h, Ghost(num_heads as int));
    let ghost want = weight_grads(qs, ds, dim as int, head_dim as int, h as int, i as int);
    let ghost terms = products(p@, want);
    let mut dp: Vec<T> = Vec::with_capacity(i + 1);
    let mut total = T::zero();
    for j in 0..i + 1
        invariant
            num_heads > 0,
            i < seq,
            h < num_heads,
            num_heads * head_dim <= dim,
            3 * dim <= usize::MAX,
            qkv@.len() == seq * (3 * dim),
            qs == rows_of(qkv@, seq as nat, (3 * dim) as nat),
            dhead@ == row_of(ds[i as int], head_dim as int, h as int),
            want == weight_grads(qs, ds, dim as int, head_dim as int, h as int, i as int),
            p@.len() == seq,
            terms == products(p@, want),
            dp@ == want.take(j as int),
            total == sum_of(terms, j as nat),
    {
        let qrow = row_at(qkv, 3 * dim, j, Ghost(seq as int));
        let vrow = row_at(qrow, dim, 2, Ghost(3));
        let vhead = row_at(vrow, head_dim, h, Ghost(num_heads as int));
        let g = dot(dhead, vhead);
        assert(want[j as int] == g);
        assert(terms[j as int] == p@[j as int].times_spec(g));
        dp.push(g);
        total = total.plus(p[j].times(g));
        assert(dp@ =~= want.take(j + 1));
    }
    assert(dp@ =~= want);
    let ghost goal = softmax_back(p@, want);
    let mut out: Vec<T> = Vec::with_capacity(i + 1);
    for j in 0..i + 1
        invariant
            i < seq,
            p@.len() == seq,
            dp@ == want,
            want.len() == i + 1,
            total == sum_of(products(p@, want), want.len()),
            goal == softmax_back(p@, want),
            out@ == goal.take(j as int),
    {
        out.push(p[j].times(dp[j].minus(total)));
        assert(out@ =~= goal.take(j + 1));
    }
    assert(out@ =~= goal);
    out
}

/// The gradients through causal attention: of the queries, keys and values, from that of
/// the output.
pub fn causal_attn_bwd<T: Scalar>(
    probs: &Vec<T>,
    qkv: &Vec<T>,
    dout: &Vec<T>,
    seq: usize,
    dim: usize,
    num_heads: usize,
) -> (r: Vec<T>)
    requires
        num_heads > 0,
        3 * dim <= usize::MAX,
        seq * num_heads <= usize::MAX,
        probs@.len() == (seq * num_heads) * seq,
        qkv@.len() == seq * (3 * dim),
        dout@.len() == seq * dim,
    ensures
        holds_rows(
            r@,
            (3 * dim) as nat,
            attention_back_rows(
                rows_of(probs@, (seq * num_heads) as nat, seq as nat),
                rows_of(qkv@, seq as nat, (3 * dim) as nat),
                rows_of(dout@, seq as nat, dim as nat),
                dim as int,
                num_heads as int,
            ),
        ),
{
    let head_dim: usize = dim / num_heads;
    let ghost ps = rows_of(probs@, (seq * num_heads) as nat, seq as nat);
    let ghost qs = rows_of(qkv@, seq as nat, (3 * dim) as nat);
    let ghost ds = rows_of(dout@, seq as nat, dim as nat);
    let ghost goal = attention_back_rows(ps, qs, ds, dim as int, num_heads as int);
    let scale = T::from_count(1).over(T::from_count(head_dim).root());
    let mut all: Vec<Vec<T>> = Vec::new();
    assert(0 * num_heads == 0) by (nonlinear_arith);
    for i in 0..seq
        invariant
            num_heads > 0,
            3 * dim <= usize::MAX,
            seq * num_heads <= usize::MAX,
            probs@.len() == (seq * num_heads) * seq,
            qkv@.len() == seq * (3 * dim),
            dout@.len() == seq * dim,
            ps == rows_of(probs@, (seq * num_heads) as nat, seq as nat),
            qs == rows_of(qkv@, seq as nat, (3 * dim) as nat),
            ds == rows_of(dout@, seq as nat, dim as nat),
            all@.len() == i * num_heads,
            forall|a: int, h: int|
                0 <= a < i && 0 <= h < num_heads ==> (#[trigger] all@[a * num_heads + h])@
                    == score_grads(ps, qs, ds, dim as int, num_heads as int, h, a),
    {
        for h in 0..num_heads
            invariant
                i < seq,
                num_heads > 0,
                3 * dim <= usize::MAX,
                seq * num_heads <= usize::MAX,
                probs@.len() == (seq * num_heads) * seq,
                qkv@.len() == seq * (3 * dim),
                dout@.len() == seq * dim,
                ps == rows_of(probs@, (seq * num_heads) as nat, seq as nat),
                qs == rows_of(qkv@, seq as nat, (3 * dim) as nat),
                ds == rows_of(dout@, seq as nat, dim as nat),
                all@.len() == i * num_heads + h,
                forall|a: int, g: int|
                    0 <= a < i && 0 <= g < num_heads ==> (#[trigger] all@[a * num_heads + g])@
                        == score_grads(ps, qs, ds, dim as int, num_heads as int, g, a),
                forall|g: int|
                    0 <= g < h ==> (#[trigger] all@[i * num_heads + g])@ == score_grads(
                        ps,
                        qs,
                        ds,
                        dim as int,
                        num_heads as int,
                        g,
                        i as int,
                    ),
        {
            let ghost before = all@;
            let row = compute_score_grads(probs, qkv, dout, seq, dim, num_heads, h, i);
            all.push(row);
            assert forall|a: int, g: int| 0 <= a < i && 0 <= g < num_heads implies (
            #[trigger] all@[a * num_heads + g])@ == score_grads(
                ps,
                qs,
                ds,
                dim as int,
                num_heads as int,
                g,
                a,
            ) by {
                lemma_cell_index(i as int, num_heads as int, a, g);
                assert(all@[a * num_heads + g] == before[a * num_heads + g]);
            }
        }
        assert((i + 1) * num_heads == i * num_heads + num_heads) by (nonlinear_arith);
        assert forall|a: int, h: int| 0 <= a < i + 1 && 0 <= h < num_heads implies (
        #[trigger] all@[a * num_heads + h])@ == score_grads(
            ps,
            qs,
            ds,
            dim as int,
            num_heads as int,
            h,
            a,
        ) by {
            if a == i {
                assert(all@[i * num_heads + h]@ == score_grads(
                    ps,
                    qs,
                    ds,
                    dim as int,
                    num_heads as int,
                    h,
                    i as int,
                ));
            }
        }
    }
    let mut out: Vec<T> = Vec::new();
    assert(0 * (3 * dim) == 0) by (nonlinear_arith);
    for j in 0..seq
        invariant
            num_heads > 0,
            head_dim == dim as int / num_heads as int,
            3 * dim <= usize::MAX,
            seq * num_heads <= usize::MAX,
            probs@.len() == (seq * num_heads) * seq,
            qkv@.len() == seq * (3 * dim),
            dout@.len() == seq * dim,
            ps == rows_of(probs@, (seq * num_heads) as nat, seq as nat),
            qs == rows_of(qkv@, seq as nat, (3 * dim) as nat),
            ds == rows_of(dout@, seq as nat, dim as nat),
            scale == head_scale::<T>(head_dim as int),
            all@.len() == seq * num_heads,
            forall|a: int, h: int|
                0 <= a < seq && 0 <= h < num_heads ==> (#[trigger] all@[a * num_heads + h])@
                    == score_grads(ps, qs, ds, dim as int, num_heads as int, h, a),
            goal == attention_back_rows(ps, qs, ds, dim as int, num_heads as int),
            holds_rows(out@, (3 * dim) as nat, goal.take(j as int)),
    {
        let row = attention_back_at(
            probs,
            qkv,
            dout,
            &all,
            scale,
            seq,
            dim,
            num_heads,
            j,
        );
        assert(goal.take(j + 1) =~= goal.take(j as int).push(row@));
        push_row(&mut out, row, Ghost((3 * dim) as nat), Ghost(goal.take(j as int)));
    }
    assert(goal.take(seq as int) =~= goal);
    out
}

/// The column of head `h` with place `e` in it.
proof fn lemma_head_column(dim: int, num_heads: int, h: int, e: int)
    requires
        num_heads > 0,
        0 <= dim,
        0 <= h < num_heads,
        0 <= e < dim / num_heads,
    ensures
        (h * (dim / num_heads) + e) / (dim / num_heads) == h,
        0 <= h * (dim / num_heads),
        h * (dim / num_heads) + e < num_heads * (dim / num_heads) <= dim,
{
    let hd = dim / num_heads;
    vstd::arithmetic::div_mod::lemma_fundamental_div_mod(dim, num_heads);
    vstd::arithmetic::div_mod::lemma_mod_bound(dim, num_heads);
    vstd::arithmetic::div_mod::lemma_fundamental_div_mod_converse(h * hd + e, hd, h, e);
    lemma_cell_index(num_heads, hd, h, e);
    assert(0 <= h * hd) by (nonlinear_arith)
        requires
            0 <= h,
            0 <= hd,
    ;
}

/// Head `h` of part `p` of row `i`.
fn head_at<'a, T: Scalar>(
    qkv: &'a Vec<T>,
    seq: usize,
    dim: usize,
    num_heads: usize,
    i: usize,
    p: usize,
    h: usize,
) -> (r: &'a [T])
    requires
        num_heads > 0,
        i < seq,
        p < 3,
        h < num_heads,
        3 * dim <= usize::MAX,
        qkv@.len() == seq * (3 * dim),
    ensures
        r@.len() == dim as int / num_heads as int,
        forall|e: int|
            0 <= e < r@.len() ==> #[trigger] r@[e] == row_of(
                rows_of(qkv@, seq as nat, (3 * dim) as nat)[i as int],
                dim as int,
                p as int,
            )[h * (dim as int / num_heads as int) + e],
{
    proof {
        vstd::arithmetic::div_mod::lemma_fundamental_div_mod(dim as int, num_heads as int);
        vstd::arithmetic::div_mod::lemma_mod_bound(dim as int, num_heads as int);
        assert forall|e: int| 0 <= e < dim as int / num_heads as int implies 0 <= #[trigger] (h * (
        dim as int / num_heads as int) + e) < dim by {
            lemma_head_column(dim as int, num_heads as int, h as int, e);
        }
    }
    let row = row_at(qkv, 3 * dim, i, Ghost(seq as int));
    let part = row_at(row, dim, p, Ghost(3));
    proof {
        lemma_row_index(num_heads as int, dim as int / num_heads as int, h as int);
    }
    row_at(part, dim / num_heads, h, Ghost(num_heads as int))
}

/// The gradient of the query at position `j` in head `h`, from the gradients of its scores.
fn query_back<T: Scalar>(
    qkv: &Vec<T>,
    grads: &Vec<T>,
    scale: T,
    seq: usize,
    dim: usize,
    num_heads: usize,
    j: usize,
    h: usize,
    Ghost(ps): Ghost<Seq<Seq<T>>>,
    Ghost(ds): Ghost<Seq<Seq<T>>>,
) -> (r: Vec<T>)
    requires
        num_heads > 0,
        j < seq,
        h < num_heads,
        3 * dim <= usize::MAX,
        seq * num_heads <= usize::MAX,
        qkv@.len() == seq * (3 * dim),
        scale == head_scale::<T>(dim as int / num_heads as int),
        grads@ == score_grads(
            ps,
            rows_of(qkv@, seq as nat, (3 * dim) as nat),
            ds,
            dim as int,
            num_heads as int,
            h as int,
            j as int,
        ),
    ensures
        r@.len() == dim as int / num_heads as int,
        forall|e: int|
            0 <= e < r@.len() ==> #[trigger] r@[e] == query_grad(
                ps,
                rows_of(qkv@, seq as nat, (3 * dim) as nat),
                ds,
                dim as int,
                num_heads as int,
                j as int,
                h * (dim as int / num_heads as int) + e,
            ),
{
    let head_dim: usize = dim / num_heads;
    let ghost qs = rows_of(qkv@, seq as nat, (3 * dim) as nat);
    let ghost first = h * head_dim;
    let mut acc = filled(head_dim, T::zero());
    for i in 0..j + 1
        invariant
            num_heads > 0,
            j < seq,
            h < num_heads,
            3 * dim <= usize::MAX,
            seq * num_heads <= usize::MAX,
            qkv@.len() == seq * (3 * dim),
            head_dim == dim as int / num_heads as int,
            first == h * head_dim,
            qs == rows_of(qkv@, seq as nat, (3 * dim) as nat),
            grads@.len() == j + 1,
            acc@.len() == head_dim,
            forall|e: int|
                0 <= e < head_dim ==> #[trigger] acc@[e] == sum_of(
                    query_terms(grads@, qs, dim as int, first + e),
                    i as nat,
                ),
    {
        let key = head_at(qkv, seq, dim, num_heads, i, 1, h);
        let ghost before = acc@;
        add_scaled(&mut acc, grads[i], key);
        assert forall|e: int| 0 <= e < head_dim implies #[trigger] acc@[e] == sum_of(
            query_terms(grads@, qs, dim as int, first + e),
            (i + 1) as nat,
        ) by {
            let terms = query_terms(grads@, qs, dim as int, first + e);
            assert(before[e] == sum_of(terms, i as nat));
            assert(terms[i as int] == grads@[i as int].times_spec(key@[e]));
        }
    }
    let mut out: Vec<T> = Vec::with_capacity(head_dim);
    for e in 0..head_dim
        invariant
            acc@.len() == head_dim,
            out@.len() == e,
            forall|k: int|
                0 <= k < e ==> #[trigger] out@[k] == T::spec_zero().plus_spec(
                    acc@[k].times_spec(scale),
                ),
    {
        out.push(T::zero().plus(acc[e].times(scale)));
    }
    assert forall|e: int| 0 <= e < out@.len() implies #[trigger] out@[e] == query_grad(
        ps,
        qs,
        ds,
        dim as int,
        num_heads as int,
        j as int,
        h * (dim as int / num_heads as int) + e,
    ) by {
        lemma_head_column(dim as int, num_heads as int, h as int, e);
        assert(acc@[e] == sum_of(query_terms(grads@, qs, dim as int, first + e), (j + 1) as nat));
    }
    out
}

/// Adds to each number `d` times the number at the same place, times `s`.
fn add_scaled_twice<T: Scalar>(acc: &mut [T], d: T, x: &[T], s: T)
    requires
        old(acc)@.len() == x@.len(),
    ensures
        final(acc)@.len() == x@.len(),
        forall|j: int|
            0 <= j < x@.len() ==> #[trigger] final(acc)@[j] == old(acc)@[j].plus_spec(
                d.times_spec(x@[j]).times_spec(s),
            ),
{
    let ghost a0 = acc@;
    let n: usize = x.len();
    // Never so; lets the compiler leave out the bounds checks of the loop.
    if acc.len() != n {
        return ;
    }
    for j in 0..n
        invariant
            n == x@.len(),
            acc@.len() == n,
            a0.len() == n,
            forall|k: int|
                0 <= k < j ==> #[trigger] acc@[k] == a0[k].plus_spec(
                    d.times_spec(x@[k]).times_spec(s),
                ),
            forall|k: int| j <= k < n ==> #[trigger] acc@[k] == a0[k],
    {
        acc[j] = acc[j].plus(d.times(x[j]).times(s));
    }
}

/// The gradient of the key at position `j` in head `h`, from the gradients of all scores.
fn key_back<T: Scalar>(
    qkv: &Vec<T>,
    all: &Vec<Vec<T>>,
    scale: T,
    seq: usize,
    dim: usize,
    num_heads: usize,
    j: usize,
    h: usize,
    Ghost(ps): Ghost<Seq<Seq<T>>>,
    Ghost(ds): Ghost<Seq<Seq<T>>>,
) -> (r: Vec<T>)
    requires
        num_heads > 0,
        j < seq,
        h < num_heads,
        3 * dim <= usize::MAX,
        seq * num_heads <= usize::MAX,
        qkv@.len() == seq * (3 * dim),
        scale == head_scale::<T>(dim as int / num_heads as int),
        all@.len() == seq * num_heads,
        forall|a: int, g: int|
            0 <= a < seq && 0 <= g < num_heads ==> (#[trigger] all@[a * num_heads + g])@
                == score_grads(
                ps,
                rows_of(qkv@, seq as nat, (3 * dim) as nat),
                ds,
                dim as int,
                num_heads as int,
                g,
                a,
            ),
    ensures
        r@.len() == dim as int / num_heads as int,
        forall|e: int|
            0 <= e < r@.len() ==> #[trigger] r@[e] == key_grad_upto(
                ps,
                rows_of(qkv@, seq as nat, (3 * dim) as nat),
                ds,
                dim as int,
                num_heads as int,
                j as int,
                h * (dim as int / num_heads as int) + e,
                seq as nat,
            ),
{
    let head_dim: usize = dim / num_heads;
    let ghost qs = rows_of(qkv@, seq as nat, (3 * dim) as nat);
    let ghost first = h * head_dim;
    let mut acc = filled(head_dim, T::zero());
    for i in j..seq
        invariant
            num_heads > 0,
            j < seq,
            h < num_heads,
            3 * dim <= usize::MAX,
            seq * num_heads <= usize::MAX,
            qkv@.len() == seq * (3 * dim),
            head_dim == dim as int / num_heads as int,
            first == h * head_dim,
            scale == head_scale::<T>(head_dim as int),
            qs == rows_of(qkv@, seq as nat, (3 * dim) as nat),
            all@.len() == seq * num_heads,
            forall|a: int, g: int|
                0 <= a < seq && 0 <= g < num_heads ==> (#[trigger] all@[a * num_heads + g])@
                    == score_grads(ps, qs, ds, dim as int, num_heads as int, g, a),
            acc@.len() == head_dim,
            forall|e: int|
                0 <= e < head_dim ==> #[trigger] acc@[e] == key_grad_upto(
                    ps,
                    qs,
                    ds,
                    dim as int,
                    num_heads as int,
                    j as int,
                    first + e,
                    i as nat,
                ),
    {
        proof {
            lemma_cell_index(seq as int, num_heads as int, i as int, h as int);
        }
        let grads = &all[i * num_heads + h];
        assert(grads@ == score_grads(
            ps,
            qs,
            ds,
            dim as int,
            num_heads as int,
            h as int,
            i as int,
        ));
        assert(grads@.len() == i + 1);
        let query = head_at(qkv, seq, dim, num_heads, i, 0, h);
        let ghost before = acc@;
        add_scaled_twice(&mut acc, grads[j], query, scale);
        assert forall|e: int| 0 <= e < head_dim implies #[trigger] acc@[e] == key_grad_upto(
            ps,
            qs,
            ds,
            dim as int,
            num_heads as int,
            j as int,
            first + e,
            (i + 1) as nat,
        ) by {
            lemma_head_column(dim as int, num_heads as int, h as int, e);
            assert(before[e] == key_grad_upto(
                ps,
                qs,
                ds,
                dim as int,
                num_heads as int,
                j as int,
                first + e,
                i as nat,
            ));
        }
    }
    acc
}

/// The gradient of the value at position `j` in head `h`, from that of the output.
fn value_back<T: Scalar>(
    probs: &Vec<T>,
    dout: &Vec<T>,
    seq: usize,
    dim: usize,
    num_heads: usize,
    j: usize,
    h: usize,
) -> (r: Vec<T>)
    requires
        num_heads > 0,
        j < seq,
        h < num_heads,
        seq * num_heads <= usize::MAX,
        probs@.len() == (seq * num_heads) * seq,
        dout@.len() == seq * dim,
    ensures
        r@.len() == dim as int / num_heads as int,
        forall|e: int|
            0 <= e < r@.len() ==> #[trigger] r@[e] == value_grad_upto(
                rows_of(probs@, (seq * num_heads) as nat, seq as nat),
                rows_of(dout@, seq as nat, dim as nat),
                dim as int,
                num_heads as int,
                j as int,
                h * (dim as int / num_heads as int) + e,
                seq as nat,
            ),
{
    let head_dim: usize = dim / num_heads;
    let ghost ps = rows_of(probs@, (seq * num_heads) as nat, seq as nat);
    let ghost ds = rows_of(dout@, seq as nat, dim as nat);
    let ghost first = h * head_dim;
    proof {
        vstd::arithmetic::div_mod::lemma_fundamental_div_mod(dim as int, num_heads as int);
        vstd::arithmetic::div_mod::lemma_mod_bound(dim as int, num_heads as int);
    }
    let mut acc = filled(head_dim, T::zero());
    for i in j..seq
        invariant
            num_heads > 0,
            j < seq,
            h < num_heads,
            seq * num_heads <= usize::MAX,
            probs@.len() == (seq * num_heads) * seq,
            dout@.len() == seq * dim,
            head_dim == dim as int / num_heads as int,
            num_heads * head_dim <= dim,
            first == h * head_dim,
            ps == rows_of(probs@, (seq * num_heads) as nat, seq as nat),
            ds == rows_of(dout@, seq as nat, dim as nat),
            acc@.len() == head_dim,
            forall|e: int|
                0 <= e < head_dim ==> #[trigger] acc@[e] == value_grad_upto(
                    ps,
                    ds,
                    dim as int,
                    num_heads as int,
                    j as int,
                    first + e,
                    i as nat,
                ),
    {
        proof {
            lemma_cell_index(seq as int, num_heads as int, i as int, h as int);
        }
        let p = row_at(probs, seq, i * num_heads + h, Ghost((seq * num_heads) as int));
        let drow = row_at(dout, dim, i, Ghost(seq as int));
        let dhead = row_at(drow, head_dim, h, Ghost(num_heads as int));
        let ghost before = acc@;
        proof {
            lemma_row_index(num_heads as int, head_dim as int, h as int);
            assert(drow@ == ds[i as int]);
        }
        add_scaled(&mut acc, p[j], dhead);
        assert forall|e: int| 0 <= e < head_dim implies #[trigger] acc@[e] == value_grad_upto(
            ps,
            ds,
            dim as int,
            num_heads as int,
            j as int,
            first + e,
            (i + 1) as nat,
        ) by {
            lemma_head_column(dim as int, num_heads as int, h as int, e);
            assert(dhead@[e] == ds[i as int][first + e]);
            assert(before[e] == value_grad_upto(
                ps,
                ds,
                dim as int,
                num_heads as int,
                j as int,
                first + e,
                i as nat,
            ));
        }
    }
    acc
}

/// Adds zeros behind the numbers until there are `n`.
fn pad<T: Scalar>(s: &mut Vec<T>, n: usize)
    requires
        old(s)@.len() <= n,
    ensures
        final(s)@.len() == n,
        forall|i: int| 0 <= i < old(s)@.len() ==> #[trigger] final(s)@[i] == old(s)@[i],
        forall|i: int| old(s)@.len() <= i < n ==> #[trigger] final(s)@[i] == T::spec_zero(),
{
    let ghost s0 = s@;
    let m: usize = s.len();
    for k in m..n
        invariant
            s@.len() == k,
            s0.len() <= k,
            forall|i: int| 0 <= i < s0.len() ==> #[trigger] s@[i] == s0[i],
            forall|i: int| s0.len() <= i < k ==> #[trigger] s@[i] == T::spec_zero(),
    {
        s.push(T::zero());
    }
}

/// The gradients of the query, the key and the value at one position, from the gradients
/// of all scores.
fn attention_back_at<T: Scalar>(
    probs: &Vec<T>,
    qkv: &Vec<T>,
    dout: &Vec<T>,
    all: &Vec<Vec<T>>,
    scale: T,
    seq: usize,
    dim: usize,
    num_heads: usize,
    j: usize,
) -> (r: Vec<T>)
    requires
        num_heads > 0,
        j < seq,
        3 * dim <= usize::MAX,
        seq * num_heads <= usize::MAX,
        probs@.len() == (seq * num_heads) * seq,
        qkv@.len() == seq * (3 * dim),
        dout@.len() == seq * dim,
        scale == head_scale::<T>(dim as int / num_heads as int),
        all@.len() == seq * num_heads,
        forall|a: int, h: int|
            0 <= a < seq && 0 <= h < num_heads ==> (#[trigger] all@[a * num_heads + h])@
                == score_grads(
                rows_of(probs@, (seq * num_heads) as nat, seq as nat),
                rows_of(qkv@, seq as nat, (3 * dim) as nat),
                rows_of(dout@, seq as nat, dim as nat),
                dim as int,
                num_heads as int,
                h,
                a,
            ),
    ensures
        r@ == attention_back_row(
            rows_of(probs@, (seq * num_heads) as nat, seq as nat),
            rows_of(qkv@, seq as nat, (3 * dim) as nat),
            rows_of(dout@, seq as nat, dim as nat),
            dim as int,
            num_heads as int,
            j as int,
        ),
        r@.len() == 3 * dim,
{
    let head_dim: usize = dim / num_heads;
    let ghost ps = rows_of(probs@, (seq * num_heads) as nat, seq as nat);
    let ghost qs = rows_of(qkv@, seq as nat, (3 * dim) as nat);
    let ghost ds = rows_of(dout@, seq as nat, dim as nat);
    let ghost goal = attention_back_row(ps, qs, ds, dim as int, num_heads as int, j as int);
    proof {
        vstd::arithmetic::div_mod::lemma_fundamental_div_mod(dim as int, num_heads as int);
        vstd::arithmetic::div_mod::lemma_mod_bound(dim as int, num_heads as int);
        assert(0 * head_dim == 0) by (nonlinear_arith);
    }
    let mut row: Vec<T> = Vec::with_capacity(3 * dim);
    for h in 0..num_heads
        invariant
            num_heads > 0,
            j < seq,
            head_dim == dim as int / num_heads as int,
            num_heads * head_dim <= dim,
            3 * dim <= usize::MAX,
            seq * num_heads <= usize::MAX,
            probs@.len() == (seq * num_heads) * seq,
            qkv@.len() == seq * (3 * dim),
            dout@.len() == seq * dim,
            ps == rows_of(probs@, (seq * num_heads) as nat, seq as nat),
            qs == rows_of(qkv@, seq as nat, (3 * dim) as nat),
            ds == rows_of(dout@, seq as nat, dim as nat),
            scale == head_scale::<T>(head_dim as int),
            all@.len() == seq * num_heads,
            forall|a: int, g: int|
                0 <= a < seq && 0 <= g < num_heads ==> (#[trigger] all@[a * num_heads + g])@
                    == score_grads(ps, qs, ds, dim as int, num_heads as int, g, a),
            goal == attention_back_row(ps, qs, ds, dim as int, num_heads as int, j as int),
            goal.len() == 3 * dim,
            row@.len() == 0 + h * head_dim,
            forall|x: int| 0 <= x < row@.len() ==> #[trigger] row@[x] == goal[x],
    {
        proof {
            lemma_cell_index(seq as int, num_heads as int, j as int, h as int);
            assert(0 <= j * num_heads) by (nonlinear_arith);
        }
        let mut part = query_back(
            qkv,
            &all[j * num_heads + h],
            scale,
            seq,
            dim,
            num_heads,
            j,
            h,
            Ghost(ps),
            Ghost(ds),
        );
        let ghost before = row@;
        let ghost added_part = part@;
        row.append(&mut part);
        proof {
            assert((h + 1) * head_dim == h * head_dim + head_dim) by (nonlinear_arith);
            assert(h * head_dim >= 0) by (nonlinear_arith)
                requires
                    head_dim >= 0,
                    h >= 0,
            ;
            assert forall|x: int| 0 <= x < row@.len() implies #[trigger] row@[x] == goal[x] by {
                if x < before.len() {
                    assert(row@[x] == before[x]);
                } else {
                    let e = x - before.len();
                    lemma_head_column(dim as int, num_heads as int, h as int, e);
                    assert(row@[x] == added_part[e]);
                }
            }
        }
    }
    let ghost used = row@;
    pad(&mut row, dim);
    assert forall|x: int| 0 <= x < row@.len() implies #[trigger] row@[x] == goal[x] by {
        if x < used.len() {
            assert(row@[x] == used[x]);
        }
    }
    for h in 0..num_heads
        invariant
            num_heads > 0,
            j < seq,
            head_dim == dim as int / num_heads as int,
            num_heads * head_dim <= dim,
            3 * dim <= usize::MAX,
            seq * num_heads <= usize::MAX,
            probs@.len() == (seq * num_heads) * seq,
            qkv@.len() == seq * (3 * dim),
            dout@.len() == seq * dim,
            ps == rows_of(probs@, (seq * num_heads) as nat, seq as nat),
            qs == rows_of(qkv@, seq as nat, (3 * dim) as nat),
            ds == rows_of(dout@, seq as nat, dim as nat),
            scale == head_scale::<T>(head_dim as int),
            all@.len() == seq * num_heads,
            forall|a: int, g: int|
                0 <= a < seq && 0 <= g < num_heads ==> (#[trigger] all@[a * num_heads + g])@
                    == score_grads(ps, qs, ds, dim as int, num_heads as int, g, a),
            goal == attention_back_row(ps, qs, ds, dim as int, num_heads as int, j as int),
            goal.len() == 3 * dim,
            row@.len() == dim + h * head_dim,
            forall|x: int| 0 <= x < row@.len() ==> #[trigger] row@[x] == goal[x],
    {
        let mut part = key_back(
            qkv,
            all,
            scale,
            seq,
            dim,
            num_heads,
            j,
            h,
            Ghost(ps),
            Ghost(ds),
        );
        let ghost before = row@;
        let ghost added_part = part@;
        row.append(&mut part);
        proof {
            assert((h + 1) * head_dim == h * head_dim + head_dim) by (nonlinear_arith);
            assert(h * head_dim >= 0) by (nonlinear_arith)
                requires
                    head_dim >= 0,
                    h >= 0,
            ;
            assert forall|x: int| 0 <= x < row@.len() implies #[trigger] row@[x] == goal[x] by {
                if x < before.len() {
                    assert(row@[x] == before[x]);
                } else {
                    let e = x - before.len();
                    lemma_head_column(dim as int, num_heads as int, h as int, e);
                    assert(row@[x] == added_part[e]);
                }
            }
        }
    }
    let ghost used = row@;
    pad(&mut row, 2 * dim);
    assert forall|x: int| 0 <= x < row@.len() implies #[trigger] row@[x] == goal[x] by {
        if x < used.len() {
            assert(row@[x] == used[x]);
        }
    }
    for h in 0..num_heads
        invariant
            num_heads > 0,
            j < seq,
            head_dim == dim as int / num_heads as int,
            num_heads * head_dim <= dim,
            3 * dim <= usize::MAX,
            seq * num_heads <= usize::MAX,
            probs@.len() == (seq * num_heads) * seq,
            qkv@.len() == seq * (3 * dim),
            dout@.len() == seq * dim,
            ps == rows_of(probs@, (seq * num_heads) as nat, seq as nat),
            qs == rows_of(qkv@, seq as nat, (3 * dim) as nat),
            ds == rows_of(dout@, seq as nat, dim as nat),
            scale == head_scale::<T>(head_dim as int),
            all@.len() == seq * num_heads,
            forall|a: int, g: int|
                0 <= a < seq && 0 <= g < num_heads ==> (#[trigger] all@[a * num_heads + g])@
                    == score_grads(ps, qs, ds, dim as int, num_heads as int, g, a),
            goal == attention_back_row(ps, qs, ds, dim as int, num_heads as int, j as int),
            goal.len() == 3 * dim,
            row@.len() == 2 * dim + h * head_dim,
            forall|x: int| 0 <= x < row@.len() ==> #[trigger] row@[x] == goal[x],
    {
        let mut part = value_back(probs, dout, seq, dim, num_heads, j, h);
        let ghost before = row@;
        let ghost added_part = part@;
        row.append(&mut part);
        proof {
            assert((h + 1) * head_dim == h * head_dim + head_dim) by (nonlinear_arith);
            assert(h * head_dim >= 0) by (nonlinear_arith)
                requires
                    head_dim >= 0,
                    h >= 0,
            ;
            assert forall|x: int| 0 <= x < row@.len() implies #[trigger] row@[x] == goal[x] by {
                if x < before.len() {
                    assert(row@[x] == before[x]);
                } else {
                    let e = x - before.len();
                    lemma_head_column(dim as int, num_heads as int, h as int, e);
                    assert(row@[x] == added_part[e]);
                }
            }
        }
    }
    let ghost used = row@;
    pad(&mut row, 3 * dim);
    assert forall|x: int| 0 <= x < row@.len() implies #[trigger] row@[x] == goal[x] by {
        if x < used.len() {
            assert(row@[x] == used[x]);
        }
    }
    assert(row@ =~= goal);
    row
}

/// The gradients of a model, in the shape of its weights.
#[derive(Debug, Clone)]
pub struct ToyLmGrads<T> {
    pub token_embed: Matrix<T>,
    pub ln1_gain: Vec<Vec<T>>,
    pub qkv: Vec<Matrix<T>>,
    pub attn_out: Vec<Matrix<T>>,
    pub ln2_gain: Vec<Vec<T>>,
    pub ff_up: Vec<Matrix<T>>,
    pub ff_down: Vec<Matrix<T>>,
    pub ln_f_gain: Vec<T>,
}

/// Whether the gradients have the shapes that the sizes ask for.
pub open spec fn grads_fit<T>(g: ToyLmGrads<T>, c: Config) -> bool {
    let n = c.num_layers as int;
    let d = c.dim as int;
    &&& has_shape(g.token_embed, c.vocab_size as int, d)
    &&& gains_fit(g.ln1_gain@, n, d)
    &&& gains_fit(g.ln2_gain@, n, d)
    &&& have_shape(g.qkv@, n, 3 * d, d)
    &&& have_shape(g.attn_out@, n, d, d)
    &&& have_shape(g.ff_up@, n, c.ff_dim as int, d)
    &&& have_shape(g.ff_down@, n, d, c.ff_dim as int)
    &&& g.ln_f_gain@.len() == d
}

impl<T: Scalar> ToyLmGrads<T> {
    /// Gradients that are all zero.
    pub fn zeros(cfg: &Config) -> (r: Self)
        requires
            sizes_fit(*cfg),
        ensures
            grads_fit(r, *cfg),
            all_zero(r.token_embed.data@),
            forall|l: int| 0 <= l < cfg.num_layers ==> all_zero((#[trigger] r.qkv@[l]).data@),
            forall|l: int| 0 <= l < cfg.num_layers ==> all_zero((#[trigger] r.attn_out@[l]).data@),
            forall|l: int| 0 <= l < cfg.num_layers ==> all_zero((#[trigger] r.ff_up@[l]).data@),
            forall|l: int| 0 <= l < cfg.num_layers ==> all_zero((#[trigger] r.ff_down@[l]).data@),
            forall|l: int| 0 <= l < cfg.num_layers ==> all_zero((#[trigger] r.ln1_gain@[l])@),
            forall|l: int| 0 <= l < cfg.num_layers ==> all_zero((#[trigger] r.ln2_gain@[l])@),
            all_zero(r.ln_f_gain@),
    {
        let n: usize = cfg.num_layers;
        let d: usize = cfg.dim;
        let f: usize = cfg.ff_dim;
        proof {
            assert(d * d <= (3 * d) * d) by (nonlinear_arith);
            assert(d * f == f * d) by (nonlinear_arith);
        }
        ToyLmGrads {
            token_embed: Matrix::zeros(cfg.vocab_size, d),
            ln1_gain: filled_rows(n, d, T::zero()),
            qkv: zero_matrices(n, 3 * d, d),
            attn_out: zero_matrices(n, d, d),
            ln2_gain: filled_rows(n, d, T::zero()),
            ff_up: zero_matrices(n, f, d),
            ff_down: zero_matrices(n, d, f),
            ln_f_gain: filled(d, T::zero()),
        }
    }
}

/// The least probability that a logarithm is taken of.
pub open spec fn least_prob<T: Scalar>() -> T {
    one::<T>().over_spec(T::spec_count(1000000)).over_spec(T::spec_count(1000000))
}

/// A probability, but at least the least one.
pub open spec fn floored_prob<T: Scalar>(p: T) -> T {
    if least_prob::<T>().at_most_spec(p) {
        p
    } else {
        least_prob::<T>()
    }
}

/// The probability of each next token.
pub open spec fn prob_row<T: Scalar>(logits: Seq<T>) -> Seq<T> {
    let e = shifted_exps(logits);
    e.map_values(|v: T| v.over_spec(sum_of(e, e.len())))
}

/// The sum over the first `n` positions of the negated log-probabilities of the targets.
pub open spec fn loss_upto<T: Scalar>(logits: Seq<Seq<T>>, targets: Seq<u32>, n: nat) -> T
    decreases n,
{
    if n == 0 {
        T::spec_zero()
    } else {
        loss_upto(logits, targets, (n - 1) as nat).minus_spec(
            floored_prob(prob_row(logits[n - 1])[targets[n - 1] as int]).ln_spec(),
        )
    }
}

/// The mean negated log-probability of the targets.
pub open spec fn mean_loss<T: Scalar>(logits: Seq<Seq<T>>, targets: Seq<u32>) -> T {
    loss_upto(logits, targets, logits.len()).over_spec(T::spec_count(logits.len() as usize))
}

/// The gradient of the mean loss with respect to the scores: in each row the
/// probabilities, less one for the target, over the number of positions.
pub open spec fn logit_grads<T: Scalar>(logits: Seq<Seq<T>>, targets: Seq<u32>) -> Seq<Seq<T>> {
    Seq::new(
        logits.len(),
        |t: int|
            Seq::new(
                logits[t].len(),
                |w: int|
                    (if w == targets[t] {
                        prob_row(logits[t])[w].minus_spec(one::<T>())
                    } else {
                        prob_row(logits[t])[w]
                    }).over_spec(T::spec_count(logits.len() as usize)),
            ),
    )
}

/// The probabilities of the next token.
pub fn compute_probs<T: Scalar>(row: &[T]) -> (r: Vec<T>)
    ensures
        r@ == prob_row(row@),
{
    let n: usize = row.len();
    let max = max_of(row);
    let ghost e = shifted_exps(row@);
    let mut exps: Vec<T> = Vec::with_capacity(n);
    let mut sum = T::zero();
    for i in 0..n
        invariant
            n == row@.len(),
            max == crate::transformer::max_upto(row@, row@.len()),
            e == shifted_exps(row@),
            exps@ == e.take(i as int),
            sum == sum_of(e, i as nat),
    {
        let v = row[i].minus(max).exp();
        exps.push(v);
        sum = sum.plus(v);
        assert(exps@ =~= e.take(i + 1));
    }
    assert(exps@ =~= e);
    let mut out: Vec<T> = Vec::with_capacity(n);
    for i in 0..n
        invariant
            n == row@.len(),
            e == shifted_exps(row@),
            exps@ == e,
            sum == sum_of(e, e.len()),
            out@ == prob_row(row@).take(i as int),
    {
        out.push(exps[i].over(sum));
        assert(out@ =~= prob_row(row@).take(i + 1));
    }
    assert(out@ =~= prob_row(row@));
    out
}

/// The mean loss and its gradient with respect to the scores.
fn loss_and_grads<T: Scalar>(logits: &Vec<T>, seq: usize, v: usize, targets: &[u32]) -> (r: (
    T,
    Vec<T>,
))
    requires
        logits@.len() == seq * v,
        targets@.len() >= seq,
        forall|t: int| 0 <= t < seq ==> (#[trigger] targets@[t]) < v,
    ensures
        r.0 == mean_loss(rows_of(logits@, seq as nat, v as nat), targets@),
        holds_rows(
            r.1@,
            v as nat,
            logit_grads(rows_of(logits@, seq as nat, v as nat), targets@),
        ),
{
    let ghost rows = rows_of(logits@, seq as nat, v as nat);
    let ghost goal = logit_grads(rows, targets@);
    let count = T::from_count(seq);
    let one = T::from_count(1);
    let million = T::from_count(1000000);
    let least = one.over(million).over(million);
    let mut loss = T::zero();
    let mut out: Vec<T> = Vec::new();
    assert(0 * v == 0) by (nonlinear_arith);
    for t in 0..seq
        invariant
            logits@.len() == seq * v,
            targets@.len() >= seq,
            forall|i: int| 0 <= i < seq ==> (#[trigger] targets@[i]) < v,
            rows == rows_of(logits@, seq as nat, v as nat),
            goal == logit_grads(rows, targets@),
            count == T::spec_count(seq),
            one == T::spec_count(1),
            least == least_prob::<T>(),
            loss == loss_upto(rows, targets@, t as nat),
            holds_rows(out@, v as nat, goal.take(t as int)),
    {
        let row = row_at(logits, v, t, Ghost(seq as int));
        let tgt: usize = targets[t] as usize;
        assert(targets@[t as int] < v);
        let probs = compute_probs(row);
        let p = probs[tgt];
        let safe = if least.at_most(p) {
            p
        } else {
            least
        };
        loss = loss.minus(safe.ln());
        let mut new_row: Vec<T> = Vec::with_capacity(v);
        for w in 0..v
            invariant
                t < seq,
                rows.len() == seq,
                row@ == rows[t as int],
                row@.len() == v,
                tgt == targets@[t as int],
                probs@ == prob_row(row@),
                goal == logit_grads(rows, targets@),
                count == T::spec_count(seq),
                one == T::spec_count(1),
                new_row@ == goal[t as int].take(w as int),
        {
            let g = if w == tgt {
                probs[w].minus(one)
            } else {
                probs[w]
            };
            new_row.push(g.over(count));
            assert(new_row@ =~= goal[t as int].take(w + 1));
        }
        assert(new_row@ =~= goal[t as int]);
        assert(goal.take(t + 1) =~= goal.take(t as int).push(new_row@));
        push_row(&mut out, new_row, Ghost(v as nat), Ghost(goal.take(t as int)));
    }
    assert(goal.take(seq as int) =~= goal);
    (loss.over(count), out)
}

/// The gradient behind the final normalisation, from that of the scores.
pub open spec fn head_back_rows<T: Scalar>(embed: Matrix<T>, d: Seq<Seq<T>>) -> Seq<Seq<T>> {
    d.map_values(
        |r: Seq<T>|
            Seq::new(
                embed.cols as nat,
                |j: int| skip_sum(r, column(matrix_rows(embed), j), r.len()),
            ),
    )
}

/// The gradient behind the final normalisation, from that of the scores.
fn back_through_head<T: Scalar>(d: &Vec<T>, seq: usize, w: &Matrix<T>) -> (r: Vec<T>)
    requires
        w.wf(),
        d@.len() == seq * w.rows,
    ensures
        holds_rows(
            r@,
            w.cols as nat,
            head_back_rows(*w, rows_of(d@, seq as nat, w.rows as nat)),
        ),
{
    let ghost ds = rows_of(d@, seq as nat, w.rows as nat);
    let ghost ws = matrix_rows(*w);
    let ghost goal = head_back_rows(*w, ds);
    let mut out: Vec<T> = Vec::new();
    assert(0 * w.cols == 0) by (nonlinear_arith);
    for t in 0..seq
        invariant
            w.wf(),
            d@.len() == seq * w.rows,
            ds == rows_of(d@, seq as nat, w.rows as nat),
            ws == matrix_rows(*w),
            goal == head_back_rows(*w, ds),
            holds_rows(out@, w.cols as nat, goal.take(t as int)),
    {
        let drow = row_at(d, w.rows, t, Ghost(seq as int));
        let mut row: Vec<T> = Vec::with_capacity(w.cols);
        for j in 0..w.cols
            invariant
                w.wf(),
                t < seq,
                drow@.len() == w.rows,
                drow@ == ds[t as int],
                ds.len() == seq,
                ws == matrix_rows(*w),
                goal == head_back_rows(*w, ds),
                row@ == goal[t as int].take(j as int),
        {
            let ghost col = column(ws, j as int);
            let mut acc = T::zero();
            for i in 0..w.rows
                invariant
                    w.wf(),
                    j < w.cols,
                    drow@.len() == w.rows,
                    ws == matrix_rows(*w),
                    col == column(ws, j as int),
                    acc == skip_sum(drow@, col, i as nat),
            {
                if !test_zero(drow[i]) {
                    let wrow = row_at(&w.data, w.cols, i, Ghost(w.rows as int));
                    acc = acc.plus(drow[i].times(wrow[j]));
                }
            }
            row.push(acc);
            assert(row@ =~= goal[t as int].take(j + 1));
        }
        assert(row@ =~= goal[t as int]);
        assert(goal.take(t + 1) =~= goal.take(t as int).push(row@));
        push_row(&mut out, row, Ghost(w.cols as nat), Ghost(goal.take(t as int)));
    }
    assert(goal.take(seq as int) =~= goal);
    out
}

/// The gradient in front of the activation, from that behind it.
pub open spec fn gelu_back_rows<T: Scalar>(pre: Seq<Seq<T>>, d: Seq<Seq<T>>) -> Seq<Seq<T>> {
    Seq::new(
        pre.len(),
        |t: int|
            Seq::new(
                pre[t].len(),
                |j: int| d[t][j].times_spec(gelu_deriv_spec(pre[t][j])),
            ),
    )
}

/// The gradient in front of the activation, from that behind it.
fn gelu_back<T: Scalar>(pre: &Vec<T>, d: &Vec<T>, seq: usize, cols: usize) -> (r: Vec<T>)
    requires
        pre@.len() == seq * cols,
        d@.len() == seq * cols,
    ensures
        holds_rows(
            r@,
            cols as nat,
            gelu_back_rows(
                rows_of(pre@, seq as nat, cols as nat),
                rows_of(d@, seq as nat, cols as nat),
            ),
        ),
{
    let ghost ps = rows_of(pre@, seq as nat, cols as nat);
    let ghost ds = rows_of(d@, seq as nat, cols as nat);
    let ghost goal = gelu_back_rows(ps, ds);
    let mut out: Vec<T> = Vec::with_capacity(pre.len());
    for i in 0..pre.len()
        invariant
            pre@.len() == d@.len(),
            out@.len() == i,
            forall|k: int|
                0 <= k < i ==> #[trigger] out@[k] == d@[k].times_spec(gelu_deriv_spec(pre@[k])),
    {
        out.push(d[i].times(gelu_deriv(pre[i])));
    }
    proof {
        assert forall|t: int| 0 <= t < seq implies #[trigger] row_of(out@, cols as int, t)
            == goal[t] by {
            lemma_row_index(seq as int, cols as int, t);
            assert(row_of(out@, cols as int, t) =~= goal[t]);
        }
    }
    out
}

/// The rows that a layer's cache holds, where the sequence has `n` positions.
pub open spec fn probs_of<T>(lc: LayerCache<T>, n: nat, nh: nat) -> Seq<Seq<T>> {
    rows_of(lc.attn_probs@, n * nh, n)
}

/// The gradient in front of the activation of layer `l`, from the gradient `dx` behind the
/// layer.
pub open spec fn pre_grads<T: Scalar>(
    w: ToyLmWeights<T>,
    c: Config,
    l: int,
    lc: LayerCache<T>,
    dx: Seq<Seq<T>>,
) -> Seq<Seq<T>> {
    gelu_back_rows(
        rows_of(lc.ff_up_pre@, dx.len(), c.ff_dim as nat),
        back_rows(w.ff_down@[l], dx),
    )
}

/// The gradient behind the second normalisation of layer `l`.
pub open spec fn norm2_grads<T: Scalar>(
    w: ToyLmWeights<T>,
    c: Config,
    l: int,
    lc: LayerCache<T>,
    dx: Seq<Seq<T>>,
) -> Seq<Seq<T>> {
    back_rows(w.ff_up@[l], pre_grads(w, c, l, lc, dx))
}

/// The gradient of the hidden state between the two parts of layer `l`.
pub open spec fn middle_grads<T: Scalar>(
    w: ToyLmWeights<T>,
    c: Config,
    l: int,
    lc: LayerCache<T>,
    dx: Seq<Seq<T>>,
) -> Seq<Seq<T>> {
    added_rows(
        dx,
        norm_back_rows(
            rows_of(lc.ln2_in@, dx.len(), c.dim as nat),
            norm2_grads(w, c, l, lc, dx),
            w.ln2_gain@[l]@,
        ),
    )
}

/// The gradient of the queries, keys and values of layer `l`, from the gradient `dm` of the
/// hidden state between the two parts.
pub open spec fn qkv_grads<T: Scalar>(
    w: ToyLmWeights<T>,
    c: Config,
    l: int,
    lc: LayerCache<T>,
    dm: Seq<Seq<T>>,
) -> Seq<Seq<T>> {
    attention_back_rows(
        probs_of(lc, dm.len(), c.num_heads as nat),
        rows_of(lc.qkv_out@, dm.len(), (3 * c.dim) as nat),
        back_rows(w.attn_out@[l], dm),
        c.dim as int,
        c.num_heads as int,
    )
}

/// The gradient behind the first normalisation of layer `l`.
pub open spec fn norm1_grads<T: Scalar>(
    w: ToyLmWeights<T>,
    c: Config,
    l: int,
    lc: LayerCache<T>,
    dm: Seq<Seq<T>>,
) -> Seq<Seq<T>> {
    back_rows(w.qkv@[l], qkv_grads(w, c, l, lc, dm))
}

/// The gradient of the hidden state in front of layer `l`, from the gradient `dx` behind
/// it.
pub open spec fn layer_back<T: Scalar>(
    w: ToyLmWeights<T>,
    c: Config,
    l: int,
    lc: LayerCache<T>,
    dx: Seq<Seq<T>>,
) -> Seq<Seq<T>> {
    let dm = middle_grads(w, c, l, lc, dx);
    added_rows(
        dm,
        norm_back_rows(
            rows_of(lc.ln1_in@, dx.len(), c.dim as nat),
            norm1_grads(w, c, l, lc, dm),
            w.ln1_gain@[l]@,
        ),
    )
}

/// Whether the matrices and gains are the gradients of layer `l`, when `dx` is the gradient
/// behind the layer.
pub open spec fn layer_grads_are<T: Scalar>(
    g: LayerGrads<T>,
    w: ToyLmWeights<T>,
    c: Config,
    l: int,
    lc: LayerCache<T>,
    dx: Seq<Seq<T>>,
) -> bool {
    let n = dx.len();
    let d = c.dim as nat;
    let f = c.ff_dim as nat;
    let dm = middle_grads(w, c, l, lc, dx);
    &&& has_shape(g.ff_down, d as int, f as int)
    &&& has_shape(g.ff_up, f as int, d as int)
    &&& has_shape(g.attn_out, d as int, d as int)
    &&& has_shape(g.qkv, 3 * d as int, d as int)
    &&& holds_rows(g.ff_down.data@, f, outer_rows(dx, rows_of(lc.ff_up_act@, n, f), d, f))
    &&& holds_rows(
        g.ff_up.data@,
        d,
        outer_rows(pre_grads(w, c, l, lc, dx), rows_of(lc.ln2_out@, n, d), f, d),
    )
    &&& g.ln2_gain@ == gain_grads(rows_of(lc.ln2_in@, n, d), norm2_grads(w, c, l, lc, dx), d)
    &&& holds_rows(g.attn_out.data@, d, outer_rows(dm, rows_of(lc.attn_out@, n, d), d, d))
    &&& holds_rows(
        g.qkv.data@,
        d,
        outer_rows(
            qkv_grads(w, c, l, lc, dm),
            rows_of(lc.ln1_out@, n, d),
            (3 * d) as nat,
            d,
        ),
    )
    &&& g.ln1_gain@ == gain_grads(rows_of(lc.ln1_in@, n, d), norm1_grads(w, c, l, lc, dm), d)
}

/// The gradients of one layer.
pub struct LayerGrads<T> {
    pub ln1_gain: Vec<T>,
    pub qkv: Matrix<T>,
    pub attn_out: Matrix<T>,
    pub ln2_gain: Vec<T>,
    pub ff_up: Matrix<T>,
    pub ff_down: Matrix<T>,
}

/// Whether the lengths in a layer's cache are those of a sequence of `n` positions.
pub open spec fn layer_shaped<T>(lc: LayerCache<T>, c: Config, n: nat) -> bool {
    let d = c.dim;
    &&& lc.ln1_in@.len() == n * d
    &&& lc.ln1_out@.len() == n * d
    &&& lc.qkv_out@.len() == n * (3 * d)
    &&& lc.attn_out@.len() == n * d
    &&& lc.attn_probs@.len() == (n * c.num_heads) * n
    &&& lc.ln2_in@.len() == n * d
    &&& lc.ln2_out@.len() == n * d
    &&& lc.ff_up_pre@.len() == n * c.ff_dim
    &&& lc.ff_up_act@.len() == n * c.ff_dim
    &&& lc.ff_down_out@.len() == n * d
}

/// Whether the lengths in a cache are those of its tokens.
pub open spec fn cache_shaped<T>(cache: ForwardCache<T>, c: Config) -> bool {
    let n = cache.tokens@.len();
    &&& cache.x_after_embed@.len() == n * c.dim
    &&& cache.x_final_norm@.len() == n * c.dim
    &&& cache.logits@.len() == n * c.vocab_size
    &&& cache.layers@.len() == c.num_layers
    &&& forall|l: int| 0 <= l < c.num_layers ==> layer_shaped(#[trigger] cache.layers@[l], c, n)
}

/// The cache of a forward pass has the right lengths, so that gradients can be computed
/// from it.
pub proof fn law_cached_is_shaped<T: Scalar>(cache: ForwardCache<T>, lm: ToyLm<T>)
    requires
        lm.wf(),
        cached(cache, lm),
    ensures
        cache_shaped(cache, lm.config),
{
    let c = lm.config;
    let w = lm.weights;
    let n = cache.tokens@.len();
    lemma_hidden_len(w, c, cache.tokens@, c.num_layers as nat);
    assert forall|l: int| 0 <= l < c.num_layers implies layer_shaped(
        #[trigger] cache.layers@[l],
        c,
        n,
    ) by {
        lemma_hidden_len(w, c, cache.tokens@, l as nat);
        assert(layer_cached(cache.layers@[l], w, c, l, hidden(w, c, cache.tokens@, l as nat)));
    }
}

/// There is one hidden row per token.
pub proof fn lemma_hidden_len<T: Scalar>(w: ToyLmWeights<T>, c: Config, tokens: Seq<u32>, l: nat)
    ensures
        hidden(w, c, tokens, l).len() == tokens.len(),
    decreases l,
{
    if l > 0 {
        lemma_hidden_len(w, c, tokens, (l - 1) as nat);
    }
}

/// The gradients of one layer, and the gradient of the hidden state in front of it.
fn layer_bwd<T: Scalar>(
    w: &ToyLmWeights<T>,
    c: &Config,
    l: usize,
    lc: &LayerCache<T>,
    seq: usize,
    dx: &Vec<T>,
) -> (r: (LayerGrads<T>, Vec<T>))
    requires
        weights_fit(*w, *c),
        l < c.num_layers,
        c.num_heads > 0,
        3 * c.dim <= usize::MAX,
        seq * c.num_heads <= usize::MAX,
        layer_shaped(*lc, *c, seq as nat),
        dx@.len() == seq * c.dim,
    ensures
        layer_grads_are(
            r.0,
            *w,
            *c,
            l as int,
            *lc,
            rows_of(dx@, seq as nat, c.dim as nat),
        ),
        holds_rows(
            r.1@,
            c.dim as nat,
            layer_back(*w, *c, l as int, *lc, rows_of(dx@, seq as nat, c.dim as nat)),
        ),
{
    let d: usize = c.dim;
    let f: usize = c.ff_dim;
    let nh: usize = c.num_heads;
    let ghost dxs = rows_of(dx@, seq as nat, d as nat);
    let ghost li = l as int;
    proof {
        assert(has_shape(w.qkv@[li], 3 * d, d as int));
        assert(has_shape(w.attn_out@[li], d as int, d as int));
        assert(has_shape(w.ff_up@[li], f as int, d as int));
        assert(has_shape(w.ff_down@[li], d as int, f as int));
        assert(w.ln1_gain@[li]@.len() == d);
        assert(w.ln2_gain@[li]@.len() == d);
        lemma_rows_held(dx@, seq as nat, d as nat);
    }
    let ff_down = outer_grad(dx, d, &lc.ff_up_act, f, seq);
    let d_act = back_through(dx, seq, &w.ff_down[l]);
    let ghost da = back_rows(w.ff_down@[li], dxs);
    proof {
        lemma_rows_read(d_act@, f as nat, da);
    }
    let d_pre = gelu_back(&lc.ff_up_pre, &d_act, seq, f);
    let ghost dp = pre_grads(*w, *c, li, *lc, dxs);
    proof {
        lemma_rows_read(d_pre@, f as nat, dp);
    }
    let ff_up = outer_grad(&d_pre, f, &lc.ln2_out, d, seq);
    let d_ln2 = back_through(&d_pre, seq, &w.ff_up[l]);
    let ghost dn2 = norm2_grads(*w, *c, li, *lc, dxs);
    proof {
        lemma_rows_read(d_ln2@, d as nat, dn2);
    }
    let (from_ffn, ln2_gain) = layernorm_bwd(&lc.ln2_in, seq, d, &d_ln2, &w.ln2_gain[l]);
    let dm = add_all(dx, &from_ffn);
    let ghost dms = middle_grads(*w, *c, li, *lc, dxs);
    proof {
        lemma_added_rows(
            dx@,
            from_ffn@,
            d as nat,
            dxs,
            norm_back_rows(rows_of(lc.ln2_in@, seq as nat, d as nat), dn2, w.ln2_gain@[li]@),
        );
        lemma_rows_read(dm@, d as nat, dms);
    }
    let attn_out = outer_grad(&dm, d, &lc.attn_out, d, seq);
    let d_attn = back_through(&dm, seq, &w.attn_out[l]);
    let ghost dat = back_rows(w.attn_out@[li], dms);
    proof {
        lemma_rows_read(d_attn@, d as nat, dat);
    }
    let d_qkv = causal_attn_bwd(&lc.attn_probs, &lc.qkv_out, &d_attn, seq, d, nh);
    let ghost dq = qkv_grads(*w, *c, li, *lc, dms);
    proof {
        lemma_rows_read(d_qkv@, (3 * d) as nat, dq);
    }
    let qkv = outer_grad(&d_qkv, 3 * d, &lc.ln1_out, d, seq);
    let d_ln1 = back_through(&d_qkv, seq, &w.qkv[l]);
    let ghost dn1 = norm1_grads(*w, *c, li, *lc, dms);
    proof {
        lemma_rows_read(d_ln1@, d as nat, dn1);
    }
    let (from_attn, ln1_gain) = layernorm_bwd(&lc.ln1_in, seq, d, &d_ln1, &w.ln1_gain[l]);
    let out = add_all(&dm, &from_attn);
    proof {
        lemma_added_rows(
            dm@,
            from_attn@,
            d as nat,
            dms,
            norm_back_rows(rows_of(lc.ln1_in@, seq as nat, d as nat), dn1, w.ln1_gain@[li]@),
        );
    }
    (LayerGrads { ln1_gain, qkv, attn_out, ln2_gain, ff_up, ff_down }, out)
}

/// The hidden state in front of the final normalisation, from the cache.
pub open spec fn last_hidden<T: Scalar>(cache: ForwardCache<T>, c: Config) -> Seq<Seq<T>> {
    let n = cache.tokens@.len();
    let d = c.dim as nat;
    if cache.layers@.len() > 0 {
        added_rows(
            rows_of(cache.layers@.last().ln2_in@, n, d),
            rows_of(cache.layers@.last().ff_down_out@, n, d),
        )
    } else {
        rows_of(cache.x_after_embed@, n, d)
    }
}

/// The gradient of the scores.
pub open spec fn score_rows_grads<T: Scalar>(
    cache: ForwardCache<T>,
    c: Config,
    targets: Seq<u32>,
) -> Seq<Seq<T>> {
    logit_grads(rows_of(cache.logits@, cache.tokens@.len(), c.vocab_size as nat), targets)
}

/// The gradient of the hidden state in front of layer `l`, or of the last one for `l` at
/// the number of layers.
pub open spec fn state_grads<T: Scalar>(
    lm: ToyLm<T>,
    cache: ForwardCache<T>,
    targets: Seq<u32>,
    l: int,
) -> Seq<Seq<T>>
    decreases lm.config.num_layers - l,
{
    if l >= lm.config.num_layers {
        norm_back_rows(
            last_hidden(cache, lm.config),
            head_back_rows(
                lm.weights.token_embed,
                score_rows_grads(cache, lm.config, targets),
            ),
            lm.weights.ln_f_gain@,
        )
    } else {
        layer_back(
            lm.weights,
            lm.config,
            l,
            cache.layers@[l],
            state_grads(lm, cache, targets, l + 1),
        )
    }
}

/// The gradient of the embedding in row `w` and column `j`: that of the output head, and
/// for each of the first `n` positions with token `w` that of its embedding.
pub open spec fn embed_grad_upto<T: Scalar>(
    head: T,
    tokens: Seq<u32>,
    dx: Seq<Seq<T>>,
    vocab_size: int,
    w: int,
    j: int,
    n: nat,
) -> T
    decreases n,
{
    if n == 0 {
        head
    } else {
        let front = embed_grad_upto(head, tokens, dx, vocab_size, w, j, (n - 1) as nat);
        if clamped_token(tokens[n - 1], vocab_size) == w {
            front.plus_spec(dx[n - 1][j])
        } else {
            front
        }
    }
}

/// The gradient of the embedding.
pub open spec fn embed_grads<T: Scalar>(
    lm: ToyLm<T>,
    cache: ForwardCache<T>,
    targets: Seq<u32>,
) -> Seq<Seq<T>> {
    let c = lm.config;
    let n = cache.tokens@.len();
    let head = outer_rows(
        score_rows_grads(cache, c, targets),
        rows_of(cache.x_final_norm@, n, c.dim as nat),
        c.vocab_size as nat,
        c.dim as nat,
    );
    Seq::new(
        c.vocab_size as nat,
        |w: int|
            Seq::new(
                c.dim as nat,
                |j: int|
                    embed_grad_upto(
                        head[w][j],
                        cache.tokens@,
                        state_grads(lm, cache, targets, 0),
                        c.vocab_size as int,
                        w,
                        j,
                        n,
                    ),
            ),
    )
}

/// The gradients of layer `l` out of all gradients.
pub open spec fn layer_of<T>(g: ToyLmGrads<T>, l: int) -> LayerGrads<T> {
    LayerGrads {
        ln1_gain: g.ln1_gain@[l],
        qkv: g.qkv@[l],
        attn_out: g.attn_out@[l],
        ln2_gain: g.ln2_gain@[l],
        ff_up: g.ff_up@[l],
        ff_down: g.ff_down@[l],
    }
}

/// Whether `g` holds the gradients of the mean loss.
pub open spec fn grads_are<T: Scalar>(
    g: ToyLmGrads<T>,
    lm: ToyLm<T>,
    cache: ForwardCache<T>,
    targets: Seq<u32>,
) -> bool {
    let c = lm.config;
    let n = cache.tokens@.len();
    &&& grads_fit(g, c)
    &&& holds_rows(g.token_embed.data@, c.dim as nat, embed_grads(lm, cache, targets))
    &&& forall|l: int|
        0 <= l < c.num_layers ==> #[trigger] layer_grads_are(
            layer_of(g, l),
            lm.weights,
            c,
            l,
            cache.layers@[l],
            state_grads(lm, cache, targets, l + 1),
        )
    &&& g.ln_f_gain@ == gain_grads(
        last_hidden(cache, c),
        head_back_rows(lm.weights.token_embed, score_rows_grads(cache, c, targets)),
        c.dim as nat,
    )
}

/// The hidden state in front of the final normalisation, from the cache.
fn residual_from_cache_last<T: Scalar>(cache: &ForwardCache<T>, c: &Config) -> (r: Vec<T>)
    requires
        cache_shaped(*cache, *c),
    ensures
        holds_rows(r@, c.dim as nat, last_hidden(*cache, *c)),
        last_hidden(*cache, *c).len() == cache.tokens@.len(),
{
    let ghost n = cache.tokens@.len();
    let ghost d = c.dim as nat;
    if cache.layers.len() > 0 {
        let at: usize = cache.layers.len() - 1;
        let last = &cache.layers[at];
        assert(layer_shaped(cache.layers@[at as int], *c, n));
        proof {
            lemma_rows_held(last.ln2_in@, n, d);
            lemma_rows_held(last.ff_down_out@, n, d);
            lemma_added_rows(
                last.ln2_in@,
                last.ff_down_out@,
                d,
                rows_of(last.ln2_in@, n, d),
                rows_of(last.ff_down_out@, n, d),
            );
        }
        add_all(&last.ln2_in, &last.ff_down_out)
    } else {
        proof {
            lemma_rows_held(cache.x_after_embed@, n, d);
        }
        copy_all(&cache.x_after_embed)
    }
}

/// Adds the gradient of each position's embedding to the row of its token.
pub(crate) fn add_embedding_grads<T: Scalar>(
    table: &mut Matrix<T>,
    tokens: &Vec<u32>,
    dx: &Vec<T>,
    Ghost(head): Ghost<Seq<Seq<T>>>,
)
    requires
        old(table).wf(),
        holds_rows(old(table).data@, old(table).cols as nat, head),
        head.len() == old(table).rows,
        dx@.len() == tokens@.len() * old(table).cols,
        old(table).rows > 0 || tokens@.len() == 0,
    ensures
        final(table).wf(),
        final(table).rows == old(table).rows,
        final(table).cols == old(table).cols,
        holds_rows(
            final(table).data@,
            old(table).cols as nat,
            Seq::new(
                old(table).rows as nat,
                |w: int|
                    Seq::new(
                        old(table).cols as nat,
                        |j: int|
                            embed_grad_upto(
                                head[w][j],
                                tokens@,
                                rows_of(dx@, tokens@.len(), old(table).cols as nat),
                                old(table).rows as int,
                                w,
                                j,
                                tokens@.len(),
                            ),
                    ),
            ),
        ),
{
    let v: usize = table.rows;
    let d: usize = table.cols;
    let n: usize = tokens.len();
    let ghost dxs = rows_of(dx@, n as nat, d as nat);
    proof {
        assert forall|w: int, j: int| 0 <= w < v && 0 <= j < d implies #[trigger] table.data@[w * d
            + j] == embed_grad_upto(head[w][j], tokens@, dxs, v as int, w, j, 0) by {
            lemma_rows_cell(table.data@, d as nat, head, w, j);
        }
    }
    for t in 0..n
        invariant
            n == tokens@.len(),
            v == table.rows,
            d == table.cols,
            table.wf(),
            v > 0 || n == 0,
            dx@.len() == n * d,
            dxs == rows_of(dx@, n as nat, d as nat),
            forall|w: int, j: int|
                0 <= w < v && 0 <= j < d ==> #[trigger] table.data@[w * d + j] == embed_grad_upto(
                    head[w][j],
                    tokens@,
                    dxs,
                    v as int,
                    w,
                    j,
                    t as nat,
                ),
    {
        let tok: usize = tokens[t] as usize;
        let at: usize = if tok < v {
            tok
        } else {
            v - 1
        };
        proof {
            lemma_row_index(v as int, d as int, at as int);
            assert(table.data.len() == table.data@.len());
        }
        let drow = row_at(dx, d, t, Ghost(n as int));
        let base: usize = at * d;
        let ghost before = table.data@;
        for j in 0..d
            invariant
                d == table.cols,
                v == table.rows,
                table.wf(),
                base + d <= table.data@.len(),
                drow@.len() == d,
                table.data@.len() == before.len(),
                forall|q: int|
                    0 <= q < before.len() && !(base <= q < base + j) ==> table.data@[q] == before[q],
                forall|q: int|
                    base <= q < base + j ==> #[trigger] table.data@[q] == before[q].plus_spec(
                        drow@[q - base],
                    ),
        {
            assert(table.data.len() == table.data@.len());
            let q: usize = base + j;
            table.data[q] = table.data[q].plus(drow[j]);
        }
        assert forall|w: int, j: int| 0 <= w < v && 0 <= j < d implies #[trigger] table.data@[w * d
            + j] == embed_grad_upto(head[w][j], tokens@, dxs, v as int, w, j, (t + 1) as nat) by {
            lemma_cell_index(v as int, d as int, w, j);
            assert(before[w * d + j] == embed_grad_upto(
                head[w][j],
                tokens@,
                dxs,
                v as int,
                w,
                j,
                t as nat,
            ));
            if w == at {
                assert(table.data@[base + j] == before[base + j].plus_spec(drow@[j]));
            } else if base <= w * d + j < base + d {
                crate::tensor::lemma_cell_unique(d as int, w, j, at as int, w * d + j - base);
            }
        }
    }
    proof {
        let goal = Seq::new(
            v as nat,
            |w: int|
                Seq::new(
                    d as nat,
                    |j: int|
                        embed_grad_upto(head[w][j], tokens@, dxs, v as int, w, j, n as nat),
                ),
        );
        assert forall|w: int| 0 <= w < v implies #[trigger] row_of(table.data@, d as int, w)
            == goal[w] by {
            lemma_row_index(v as int, d as int, w);
            assert forall|j: int| 0 <= j < d implies row_of(table.data@, d as int, w)[j]
                == goal[w][j] by {
                assert(table.data@[w * d + j] == embed_grad_upto(
                    head[w][j],
                    tokens@,
                    dxs,
                    v as int,
                    w,
                    j,
                    n as nat,
                ));
            }
            assert(row_of(table.data@, d as int, w) =~= goal[w]);
        }
    }
}

/// The mean loss of the targets and its gradients, from the cache of a forward pass.
/// `targets[t]` is the token that position `t` should predict.
pub fn backward<T: Scalar>(lm: &ToyLm<T>, cache: &ForwardCache<T>, targets: &[u32]) -> (r: (
    T,
    ToyLmGrads<T>,
))
    requires
        lm.wf(),
        sizes_fit(lm.config),
        can_run(lm.config, cache.tokens@.len()),
        cache_shaped(*cache, lm.config),
        cache.tokens@.len() * lm.config.num_heads <= usize::MAX,
        targets@.len() >= cache.tokens@.len(),
        forall|t: int|
            0 <= t < cache.tokens@.len() ==> (#[trigger] targets@[t]) < lm.config.vocab_size,
    ensures
        r.0 == mean_loss(
            rows_of(cache.logits@, cache.tokens@.len(), lm.config.vocab_size as nat),
            targets@,
        ),
        grads_are(r.1, *lm, *cache, targets@),
{
    let c = &lm.config;
    let w = &lm.weights;
    let seq: usize = cache.tokens.len();
    let d: usize = c.dim;
    let v: usize = c.vocab_size;
    let n: usize = c.num_layers;
    let (loss, dlogits) = loss_and_grads(&cache.logits, seq, v, targets);
    let ghost dl = score_rows_grads(*cache, *c, targets@);
    proof {
        lemma_rows_read(dlogits@, v as nat, dl);
    }
    let mut token_embed = outer_grad(&dlogits, v, &cache.x_final_norm, d, seq);
    let ghost head = outer_rows(
        dl,
        rows_of(cache.x_final_norm@, seq as nat, d as nat),
        v as nat,
        d as nat,
    );
    let dx_final = back_through_head(&dlogits, seq, &w.token_embed);
    let ghost dxf = head_back_rows(w.token_embed, dl);
    proof {
        lemma_rows_read(dx_final@, d as nat, dxf);
    }
    let last = residual_from_cache_last(cache, c);
    proof {
        lemma_rows_read(last@, d as nat, last_hidden(*cache, *c));
    }
    let (dx0, ln_f_gain) = layernorm_bwd(&last, seq, d, &dx_final, &w.ln_f_gain);
    let mut dx = dx0;
    let mut grads = ToyLmGrads::zeros(c);
    let mut left: usize = n;
    while left > 0
        invariant
            lm.wf(),
            *c == lm.config,
            *w == lm.weights,
            n == c.num_layers,
            d == c.dim,
            seq == cache.tokens@.len(),
            sizes_fit(*c),
            can_run(*c, seq as nat),
            cache_shaped(*cache, *c),
            seq * c.num_heads <= usize::MAX,
            left <= n,
            grads_fit(grads, *c),
            state_grads(*lm, *cache, targets@, left as int).len() == seq,
            holds_rows(dx@, d as nat, state_grads(*lm, *cache, targets@, left as int)),
            forall|l: int|
                left <= l < n ==> #[trigger] layer_grads_are(
                    layer_of(grads, l),
                    *w,
                    *c,
                    l,
                    cache.layers@[l],
                    state_grads(*lm, *cache, targets@, l + 1),
                ),
        decreases left,
    {
        let l: usize = left - 1;
        let ghost behind = state_grads(*lm, *cache, targets@, left as int);
        let ghost before = grads;
        assert(layer_shaped(cache.layers@[l as int], *c, seq as nat));
        proof {
            lemma_rows_read(dx@, d as nat, behind);
        }
        let (g, next) = layer_bwd(w, c, l, &cache.layers[l], seq, &dx);
        grads.ln1_gain[l] = g.ln1_gain;
        grads.qkv[l] = g.qkv;
        grads.attn_out[l] = g.attn_out;
        grads.ln2_gain[l] = g.ln2_gain;
        grads.ff_up[l] = g.ff_up;
        grads.ff_down[l] = g.ff_down;
        dx = next;
        left = l;
        proof {
            assert(layer_of(grads, l as int) == g);
            assert forall|k: int| left <= k < n implies #[trigger] layer_grads_are(
                layer_of(grads, k),
                *w,
                *c,
                k,
                cache.layers@[k],
                state_grads(*lm, *cache, targets@, k + 1),
            ) by {
                if k > l {
                    assert(layer_of(grads, k) == layer_of(before, k));
                }
            }
        }
    }
    proof {
        lemma_rows_read(dx@, d as nat, state_grads(*lm, *cache, targets@, 0));
    }
    add_embedding_grads(&mut token_embed, &cache.tokens, &dx, Ghost(head));
    proof {
        let goal = embed_grads(*lm, *cache, targets@);
        assert(goal =~= Seq::new(
            v as nat,
            |r: int|
                Seq::new(
                    d as nat,
                    |j: int|
                        embed_grad_upto(
                            head[r][j],
                            cache.tokens@,
                            state_grads(*lm, *cache, targets@, 0),
                            v as int,
                            r,
                            j,
                            seq as nat,
                        ),
                ),
        ));
    }
    let ghost layers = grads;
    grads.token_embed = token_embed;
    grads.ln_f_gain = ln_f_gain;
    proof {
        assert forall|l: int| 0 <= l < n implies #[trigger] layer_grads_are(
            layer_of(grads, l),
            *w,
            *c,
            l,
            cache.layers@[l],
            state_grads(*lm, *cache, targets@, l + 1),
        ) by {
            assert(layer_of(grads, l) == layer_of(layers, l));
        }
    }
    (loss, grads)
}

/// Every number times `coeff`.
pub open spec fn scaled_all<T: Scalar>(dy: Seq<T>, coeff: T) -> Seq<T> {
    dy.map_values(|v: T| coeff.times_spec(v))
}

/// Whether `b` is the matrix `a` with `g` added.
pub open spec fn matrix_added<T: Scalar>(a: Matrix<T>, b: Matrix<T>, g: Matrix<T>) -> bool {
    b.rows == a.rows && b.cols == a.cols && b.data@ == added(a.data@, g.data@)
}

/// Whether `b` has the gradients of `a`, with those of one layer added at layer `l`.
pub open spec fn layer_added<T: Scalar>(
    a: ToyLmGrads<T>,
    b: ToyLmGrads<T>,
    g: LayerGrads<T>,
    l: int,
) -> bool {
    &&& b.token_embed == a.token_embed
    &&& b.ln_f_gain == a.ln_f_gain
    &&& b.qkv@ == a.qkv@.update(l, b.qkv@[l])
    &&& b.attn_out@ == a.attn_out@.update(l, b.attn_out@[l])
    &&& b.ff_up@ == a.ff_up@.update(l, b.ff_up@[l])
    &&& b.ff_down@ == a.ff_down@.update(l, b.ff_down@[l])
    &&& b.ln1_gain@ == a.ln1_gain@.update(l, b.ln1_gain@[l])
    &&& b.ln2_gain@ == a.ln2_gain@.update(l, b.ln2_gain@[l])
    &&& matrix_added(a.qkv@[l], b.qkv@[l], g.qkv)
    &&& matrix_added(a.attn_out@[l], b.attn_out@[l], g.attn_out)
    &&& matrix_added(a.ff_up@[l], b.ff_up@[l], g.ff_up)
    &&& matrix_added(a.ff_down@[l], b.ff_down@[l], g.ff_down)
    &&& b.ln1_gain@[l]@ == added(a.ln1_gain@[l]@, g.ln1_gain@)
    &&& b.ln2_gain@[l]@ == added(a.ln2_gain@[l]@, g.ln2_gain@)
}

/// Adds numbers place by place.
fn add_into<T: Scalar>(dst: &mut Vec<T>, src: &Vec<T>)
    requires
        old(dst)@.len() == src@.len(),
    ensures
        final(dst)@ == added(old(dst)@, src@),
{
    let ghost d0 = dst@;
    for i in 0..src.len()
        invariant
            d0.len() == src@.len(),
            dst@.len() == d0.len(),
            forall|j: int| 0 <= j < i ==> dst@[j] == d0[j].plus_spec(src@[j]),
            forall|j: int| i <= j < d0.len() ==> dst@[j] == d0[j],
    {
        dst[i] = dst[i].plus(src[i]);
    }
    assert(dst@ =~= added(d0, src@));
}

/// Every number times `coeff`, computed.
pub fn scale_all<T: Scalar>(dy: &[T], coeff: T) -> (r: Vec<T>)
    ensures
        r@ == scaled_all(dy@, coeff),
{
    let mut out: Vec<T> = Vec::with_capacity(dy.len());
    for i in 0..dy.len()
        invariant
            out@ == scaled_all(dy@, coeff).take(i as int),
    {
        out.push(coeff.times(dy[i]));
        assert(out@ =~= scaled_all(dy@, coeff).take(i + 1));
    }
    assert(out@ =~= scaled_all(dy@, coeff));
    out
}

/// Adds to `grads` the gradients of one layer alone, when `coeff` times `dy` is the
/// gradient behind it. Nothing flows to other layers, the embedding or the final gain.
pub fn block_backward_local<T: Scalar>(
    lm: &ToyLm<T>,
    cache: &ForwardCache<T>,
    l: usize,
    dy: &[T],
    coeff: T,
    grads: &mut ToyLmGrads<T>,
)
    requires
        lm.wf(),
        sizes_fit(lm.config),
        l < lm.config.num_layers,
        lm.config.num_heads > 0,
        cache_shaped(*cache, lm.config),
        cache.tokens@.len() * lm.config.num_heads <= usize::MAX,
        dy@.len() == cache.tokens@.len() * lm.config.dim,
        grads_fit(*old(grads), lm.config),
    ensures
        grads_fit(*final(grads), lm.config),
        exists|g: LayerGrads<T>| #[trigger]
            layer_grads_are(
                g,
                lm.weights,
                lm.config,
                l as int,
                cache.layers@[l as int],
                rows_of(scaled_all(dy@, coeff), cache.tokens@.len(), lm.config.dim as nat),
            ) && layer_added(*old(grads), *final(grads), g, l as int),
{
    let c = &lm.config;
    let seq: usize = cache.tokens.len();
    let ghost g0 = *grads;
    let ghost li = l as int;
    assert(layer_shaped(cache.layers@[l as int], *c, seq as nat));
    let dx = scale_all(dy, coeff);
    let (g, _back) = layer_bwd(&lm.weights, c, l, &cache.layers[l], seq, &dx);
    proof {
        let d = c.dim as int;
        let f = c.ff_dim as int;
        assert(has_shape(g0.qkv@[li], 3 * d, d));
        assert(has_shape(g0.attn_out@[li], d, d));
        assert(has_shape(g0.ff_up@[li], f, d));
        assert(has_shape(g0.ff_down@[li], d, f));
        assert(g0.ln1_gain@[li]@.len() == d);
        assert(g0.ln2_gain@[li]@.len() == d);
    }
    add_into(&mut grads.qkv[l].data, &g.qkv.data);
    add_into(&mut grads.attn_out[l].data, &g.attn_out.data);
    add_into(&mut grads.ff_up[l].data, &g.ff_up.data);
    add_into(&mut grads.ff_down[l].data, &g.ff_down.data);
    add_into(&mut grads.ln1_gain[l], &g.ln1_gain);
    add_into(&mut grads.ln2_gain[l], &g.ln2_gain);
    proof {
        assert(grads.qkv@ =~= g0.qkv@.update(li, grads.qkv@[li]));
        assert(grads.attn_out@ =~= g0.attn_out@.update(li, grads.attn_out@[li]));
        assert(grads.ff_up@ =~= g0.ff_up@.update(li, grads.ff_up@[li]));
        assert(grads.ff_down@ =~= g0.ff_down@.update(li, grads.ff_down@[li]));
        assert(grads.ln1_gain@ =~= g0.ln1_gain@.update(li, grads.ln1_gain@[li]));
        assert(grads.ln2_gain@ =~= g0.ln2_gain@.update(li, grads.ln2_gain@[li]));
        assert(layer_added(g0, *grads, g, li));
    }
}

/// The weights that a step of length `lr` against the gradient leads to.
pub open spec fn stepped<T: Scalar>(w: Seq<T>, g: Seq<T>, lr: T) -> Seq<T> {
    Seq::new(
        w.len(),
        |i: int|
            if i < g.len() {
                w[i].minus_spec(lr.times_spec(g[i]))
            } else {
                w[i]
            },
    )
}

/// Takes a step of length `lr` against the gradient.
pub fn axpy_neg<T: Scalar>(dst: &mut Vec<T>, src: &Vec<T>, lr: T)
    ensures
        final(dst)@ == stepped(old(dst)@, src@, lr),
{
    let n: usize = if dst.len() < src.len() {
        dst.len()
    } else {
        src.len()
    };
    let ghost d0 = dst@;
    for i in 0..n
        invariant
            n <= d0.len(),
            n <= src@.len(),
            dst@.len() == d0.len(),
            forall|j: int| 0 <= j < i ==> dst@[j] == d0[j].minus_spec(lr.times_spec(src@[j])),
            forall|j: int| i <= j < d0.len() ==> dst@[j] == d0[j],
    {
        dst[i] = dst[i].minus(lr.times(src[i]));
    }
    assert(dst@ =~= stepped(d0, src@, lr));
}

/// Whether `b` has the matrices of `a` after a step.
pub open spec fn matrices_stepped<T: Scalar>(
    a: Seq<Matrix<T>>,
    b: Seq<Matrix<T>>,
    g: Seq<Matrix<T>>,
    lr: T,
    n: int,
) -> bool {
    &&& a.len() == b.len()
    &&& forall|l: int|
        0 <= l < n ==> (#[trigger] b[l]).rows == a[l].rows && b[l].cols == a[l].cols && b[l].data@
            == stepped(a[l].data@, g[l].data@, lr)
    &&& forall|l: int| n <= l < a.len() ==> #[trigger] b[l] == a[l]
}

/// Whether `b` has the gains of `a` after a step.
pub open spec fn gains_stepped<T: Scalar>(
    a: Seq<Vec<T>>,
    b: Seq<Vec<T>>,
    g: Seq<Vec<T>>,
    lr: T,
    n: int,
) -> bool {
    &&& a.len() == b.len()
    &&& forall|l: int| 0 <= l < n ==> (#[trigger] b[l])@ == stepped(a[l]@, g[l]@, lr)
    &&& forall|l: int| n <= l < a.len() ==> #[trigger] b[l] == a[l]
}

impl<T: Scalar> ToyLmGrads<T> {
    /// Takes a step of length `lr` against the gradient.
    pub fn sgd_step(&self, weights: &mut ToyLmWeights<T>, lr: T)
        requires
            exists|c: Config| grads_fit(*self, c) && weights_fit(*old(weights), c),
        ensures
            final(weights).token_embed.rows == old(weights).token_embed.rows,
            final(weights).token_embed.cols == old(weights).token_embed.cols,
            final(weights).token_embed.data@ == stepped(
                old(weights).token_embed.data@,
                self.token_embed.data@,
                lr,
            ),
            matrices_stepped(
                old(weights).qkv@,
                final(weights).qkv@,
                self.qkv@,
                lr,
                self.qkv@.len() as int,
            ),
            matrices_stepped(
                old(weights).attn_out@,
                final(weights).attn_out@,
                self.attn_out@,
                lr,
                self.qkv@.len() as int,
            ),
            matrices_stepped(
                old(weights).ff_up@,
                final(weights).ff_up@,
                self.ff_up@,
                lr,
                self.qkv@.len() as int,
            ),
            matrices_stepped(
                old(weights).ff_down@,
                final(weights).ff_down@,
                self.ff_down@,
                lr,
                self.qkv@.len() as int,
            ),
            gains_stepped(
                old(weights).ln1_gain@,
                final(weights).ln1_gain@,
                self.ln1_gain@,
                lr,
                self.qkv@.len() as int,
            ),
            gains_stepped(
                old(weights).ln2_gain@,
                final(weights).ln2_gain@,
                self.ln2_gain@,
                lr,
                self.qkv@.len() as int,
            ),
            final(weights).ln_f_gain@ == stepped(
                old(weights).ln_f_gain@,
                self.ln_f_gain@,
                lr,
            ),
    {
        let ghost w0 = *weights;
        axpy_neg(&mut weights.token_embed.data, &self.token_embed.data, lr);
        let n: usize = self.qkv.len();
        for l in 0..n
            invariant
                n == self.qkv@.len(),
                n == self.attn_out@.len(),
                n == self.ff_up@.len(),
                n == self.ff_down@.len(),
                n == self.ln1_gain@.len(),
                n == self.ln2_gain@.len(),
                n == w0.qkv@.len(),
                n == w0.attn_out@.len(),
                n == w0.ff_up@.len(),
                n == w0.ff_down@.len(),
                n == w0.ln1_gain@.len(),
                n == w0.ln2_gain@.len(),
                weights.token_embed.rows == w0.token_embed.rows,
                weights.token_embed.cols == w0.token_embed.cols,
                weights.token_embed.data@ == stepped(
                    w0.token_embed.data@,
                    self.token_embed.data@,
                    lr,
                ),
                weights.ln_f_gain == w0.ln_f_gain,
                matrices_stepped(w0.qkv@, weights.qkv@, self.qkv@, lr, l as int),
                matrices_stepped(w0.attn_out@, weights.attn_out@, self.attn_out@, lr, l as int),
                matrices_stepped(w0.ff_up@, weights.ff_up@, self.ff_up@, lr, l as int),
                matrices_stepped(w0.ff_down@, weights.ff_down@, self.ff_down@, lr, l as int),
                gains_stepped(w0.ln1_gain@, weights.ln1_gain@, self.ln1_gain@, lr, l as int),
                gains_stepped(w0.ln2_gain@, weights.ln2_gain@, self.ln2_gain@, lr, l as int),
        {
            axpy_neg(&mut weights.qkv[l].data, &self.qkv[l].data, lr);
            axpy_neg(&mut weights.attn_out[l].data, &self.attn_out[l].data, lr);
            axpy_neg(&mut weights.ff_up[l].data, &self.ff_up[l].data, lr);
            axpy_neg(&mut weights.ff_down[l].data, &self.ff_down[l].data, lr);
            axpy_neg(&mut weights.ln1_gain[l], &self.ln1_gain[l], lr);
            axpy_neg(&mut weights.ln2_gain[l], &self.ln2_gain[l], lr);
        }
        axpy_neg(&mut weights.ln_f_gain, &self.ln_f_gain, lr);
    }
}

} // verus!
