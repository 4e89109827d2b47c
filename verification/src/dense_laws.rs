//! What the parts of the dense model compute, where arithmetic is exact.

use vstd::prelude::*;
use crate::autograd::prob_row;
use crate::config::Config;
use crate::exact::{
    computes_exactly, law_dot_linear, law_dot_picks, law_dot_symmetric, lemma_add,
    lemma_constant_sum, lemma_count_quotient, lemma_div, lemma_mul, lemma_negative_factor,
    lemma_opposite, lemma_shifted_difference, lemma_sum_adds, lemma_sum_quotient, lemma_sum_scales,
    lemma_swap, unit_vector,
};
use crate::forward_forward::sigmoid_spec;
use crate::kernel::lemma_plus_zero;
use crate::rng::{lemma_state_after, seed_state, state_after};
use crate::scalar::{dot_spec, products, sum_of, Scalar};
use crate::tensor::{lemma_row_index, row_of, Matrix};
use crate::toy_lm::{
    after_attention, after_feed_forward, after_retrieval, all_zero, attended, clamped_token,
    embedded, has_shape, hidden, layer_params, layer_state, logits_spec, param_count, random_layer,
    retrieved, slot_scores, weights_fit, ToyLm, ToyLmWeights,
};
use crate::transformer::{
    added, added_rows, applied, applied_rows, attention_row, gelu_all, gelu_factor, gelu_inner,
    gelu_rows, gelu_spec, gelu_tanh, half, head_scale, head_scores, head_weights, inverse_or_zero,
    max_upto, mean_spec, norm_floor, norm_row, norm_rows, one, row_parts, rstd_spec, shifted_exps,
    softmax_spec, squared_deviations, two, variance_spec, weighted,
};

verus! {

/// A row with the same number added everywhere.
pub open spec fn shifted<T: Scalar>(row: Seq<T>, c: T) -> Seq<T> {
    row.map_values(|v: T| v.plus_spec(c))
}

proof fn lemma_mean_shifts<T: Scalar>(row: Seq<T>, c: T)
    requires
        computes_exactly::<T>(),
        0 < row.len() <= usize::MAX,
    ensures
        mean_spec(shifted(row, c)) == mean_spec(row).plus_spec(c),
{
    let n = row.len();
    let cs = Seq::new(n, |i: int| c);
    lemma_sum_adds(row, cs, shifted(row, c), n);
    lemma_constant_sum(cs, c, n);
    let k = T::spec_count(n as usize);
    lemma_sum_quotient(sum_of(row, n), k.times_spec(c), k);
    lemma_count_quotient(c, n as usize);
}

/// Normalisation takes the mean away: the same number added to all of a row changes nothing.
pub proof fn law_norm_ignores_shifts<T: Scalar>(row: Seq<T>, gain: Seq<T>, c: T)
    requires
        computes_exactly::<T>(),
        0 < row.len() <= usize::MAX,
    ensures
        norm_row(shifted(row, c), gain) == norm_row(row, gain),
{
    let s = shifted(row, c);
    lemma_mean_shifts(row, c);
    assert forall|i: int| 0 <= i < row.len() implies s[i].minus_spec(mean_spec(s)) == row[i].minus_spec(
        mean_spec(row),
    ) by {
        lemma_shifted_difference(row[i], mean_spec(row), c);
    }
    assert(squared_deviations(s, mean_spec(s)) =~= squared_deviations(row, mean_spec(row)));
    assert(norm_row(s, gain) =~= norm_row(row, gain));
}

/// Normalisation gives a row the variance one, but for the floor: where the gains are one, the
/// sum of the squares of the result, times the variance of the row and a hundred-thousandth,
/// is the sum of the squared deviations from the mean.
pub proof fn law_norm_unit_variance<T: Scalar>(row: Seq<T>, gain: Seq<T>)
    requires
        computes_exactly::<T>(),
        0 < row.len() <= usize::MAX,
        gain.len() == row.len(),
        forall|i: int| 0 <= i < gain.len() ==> #[trigger] gain[i] == one::<T>(),
        ({
            let n = T::spec_count(row.len() as usize);
            let m = sum_of(row, row.len()).over_spec(n);
            let dev = Seq::new(row.len(), |i: int| row[i].minus_spec(m));
            let v = dot_spec(dev, dev).over_spec(n);
            let x = v.plus_spec(one::<T>().over_spec(T::spec_count(100000)));
            let r = x.root_spec();
            r.times_spec(r) == x && r.times_spec(one::<T>().over_spec(r)) == one::<T>()
        }),
    ensures
        ({
            let n = T::spec_count(row.len() as usize);
            let m = sum_of(row, row.len()).over_spec(n);
            let dev = Seq::new(row.len(), |i: int| row[i].minus_spec(m));
            let v = dot_spec(dev, dev).over_spec(n);
            let out = norm_row(row, gain);
            dot_spec(out, out).times_spec(
                v.plus_spec(one::<T>().over_spec(T::spec_count(100000))),
            ) == dot_spec(dev, dev)
        }),
{
    let len = row.len();
    let n = T::spec_count(len as usize);
    let m = mean_spec(row);
    let dev = Seq::new(len, |i: int| row[i].minus_spec(m));
    let v = dot_spec(dev, dev).over_spec(n);
    let x = v.plus_spec(norm_floor::<T>());
    let r = x.root_spec();
    let inv = one::<T>().over_spec(r);
    let out = norm_row(row, gain);
    assert(products(dev, dev) =~= squared_deviations(row, m));
    assert(variance_spec(row) == v);
    assert(rstd_spec(row) == inv);
    let p = products(dev, dev);
    let q = products(out, out);
    let i2 = inv.times_spec(inv);
    assert forall|i: int| 0 <= i < len implies #[trigger] q[i] == i2.times_spec(p[i]) by {
        let d = dev[i];
        lemma_div(d, d, 0);
        assert(gain[i] == one::<T>());
        assert(out[i] == d.times_spec(inv));
        lemma_square(d, inv);
    }
    lemma_sum_scales(i2, p, q, len);
    assert(p.len() == len && q.len() == len);
    let s = sum_of(p, len);
    // (inv² s) r² = s.
    lemma_square(r, inv);
    lemma_swap(i2.times_spec(s), x);
    lemma_mul(x, i2, s);
    lemma_swap(i2, x);
    lemma_div(s, s, 0);
    lemma_div(one::<T>(), s, 0);
}

/// The square of a product is the product of the squares.
proof fn lemma_square<T: Scalar>(a: T, b: T)
    requires
        computes_exactly::<T>(),
    ensures
        a.times_spec(b).times_spec(a.times_spec(b)) == b.times_spec(b).times_spec(a.times_spec(a)),
{
    lemma_swap(a, b);
    let ba = b.times_spec(a);
    lemma_mul(b, a, ba);
    lemma_mul(a, b, a);
    lemma_swap(a, ba);
    lemma_mul(b, a, a);
    lemma_mul(b, b, a.times_spec(a));
}

/// The attention scale is one over the square root of the width: its square times the width is
/// one.
pub proof fn law_head_scale<T: Scalar>(head_dim: usize)
    requires
        computes_exactly::<T>(),
        ({
            let r = T::spec_count(head_dim).root_spec();
            r.times_spec(r) == T::spec_count(head_dim) && r.times_spec(one::<T>().over_spec(r))
                == one::<T>()
        }),
    ensures
        head_scale::<T>(head_dim as int).times_spec(
            head_scale::<T>(head_dim as int),
        ).times_spec(T::spec_count(head_dim)) == one::<T>(),
{
    let r = T::spec_count(head_dim).root_spec();
    let inv = one::<T>().over_spec(r);
    lemma_square(r, inv);
    lemma_div(one::<T>(), r, 0);
}

/// The weights of softmax sum up to one.
pub proof fn law_softmax_sums_to_one<T: Scalar>(s: Seq<T>)
    requires
        computes_exactly::<T>(),
        T::spec_zero().below_spec(sum_of(shifted_exps(s), s.len())),
        forall|x: T|
            T::spec_zero().below_spec(x) ==> x.times_spec(#[trigger] one::<T>().over_spec(x))
                == one::<T>(),
    ensures
        sum_of(softmax_spec(s), s.len()) == one::<T>(),
{
    let e = shifted_exps(s);
    let sum = sum_of(e, e.len());
    let inv = inverse_or_zero(sum);
    assert(inv == one::<T>().over_spec(sum));
    let p = softmax_spec(s);
    assert forall|i: int| 0 <= i < s.len() implies #[trigger] p[i] == inv.times_spec(e[i]) by {
        lemma_swap(e[i], inv);
    }
    lemma_sum_scales(inv, e, p, s.len());
    lemma_swap(inv, sum);
}

/// Attention takes a weighted mean of the values: where all values that a position looks at
/// have the same number in a column, that number comes out.
pub proof fn law_attention_is_a_mean<T: Scalar>(
    q: Seq<Seq<T>>,
    k: Seq<Seq<T>>,
    v: Seq<Seq<T>>,
    dim: int,
    num_heads: int,
    i: int,
    c: int,
    x: T,
)
    requires
        computes_exactly::<T>(),
        num_heads > 0,
        0 <= i,
        0 <= c < num_heads * (dim / num_heads),
        c < dim,
        forall|j: int| 0 <= j <= i ==> (#[trigger] v[j])[c] == x,
        T::spec_zero().below_spec(
            sum_of(
                shifted_exps(head_scores(q, k, dim / num_heads, c / (dim / num_heads), i)),
                (i + 1) as nat,
            ),
        ),
        forall|y: T|
            T::spec_zero().below_spec(y) ==> y.times_spec(#[trigger] one::<T>().over_spec(y))
                == one::<T>(),
    ensures
        attention_row(q, k, v, dim, num_heads, i)[c] == x,
{
    let hd = dim / num_heads;
    let s = head_scores(q, k, hd, c / hd, i);
    let p = head_weights(q, k, hd, c / hd, i);
    law_softmax_sums_to_one(s);
    let t = weighted(p, v, c);
    assert forall|j: int| 0 <= j < p.len() implies #[trigger] t[j] == x.times_spec(p[j]) by {
        assert(v[j][c] == x);
        lemma_swap(p[j], x);
    }
    lemma_sum_scales(x, p, t, p.len());
    lemma_swap(x, one::<T>());
    lemma_div(x, x, 0);
}

/// The heads do not see each other: the output of a head depends on its own columns of the
/// queries, keys and values alone.
pub proof fn law_heads_are_independent<T: Scalar>(
    q1: Seq<Seq<T>>,
    k1: Seq<Seq<T>>,
    v1: Seq<Seq<T>>,
    q2: Seq<Seq<T>>,
    k2: Seq<Seq<T>>,
    v2: Seq<Seq<T>>,
    dim: int,
    num_heads: int,
    i: int,
    c: int,
)
    requires
        num_heads > 0,
        0 <= i,
        0 <= c < num_heads * (dim / num_heads),
        c < dim,
        row_of(q1[i], dim / num_heads, c / (dim / num_heads)) == row_of(
            q2[i],
            dim / num_heads,
            c / (dim / num_heads),
        ),
        forall|j: int|
            0 <= j <= i ==> row_of(#[trigger] k1[j], dim / num_heads, c / (dim / num_heads))
                == row_of(k2[j], dim / num_heads, c / (dim / num_heads)),
        forall|j: int| 0 <= j <= i ==> (#[trigger] v1[j])[c] == v2[j][c],
    ensures
        attention_row(q1, k1, v1, dim, num_heads, i)[c] == attention_row(
            q2,
            k2,
            v2,
            dim,
            num_heads,
            i,
        )[c],
{
    let hd = dim / num_heads;
    let h = c / hd;
    let a = head_scores(q1, k1, hd, h, i);
    let b = head_scores(q2, k2, hd, h, i);
    assert forall|j: int| 0 <= j <= i implies a[j] == b[j] by {
        assert(row_of(k1[j], hd, h) == row_of(k2[j], hd, h));
    }
    assert(a =~= b);
    let p = softmax_spec(a);
    assert forall|j: int| 0 <= j < p.len() implies weighted(p, v1, c)[j] == weighted(p, v2, c)[j] by {
        assert(v1[j][c] == v2[j][c]);
    }
    assert(weighted(p, v1, c) =~= weighted(p, v2, c));
}

/// The parts of the activation on a number with the other sign: the correction is the same, the
/// hyperbolic tangent has the other sign.
pub proof fn lemma_mirrored_parts<T: Scalar>(v: T)
    requires
        computes_exactly::<T>(),
        forall|x: T|
            (#[trigger] T::spec_zero().minus_spec(x).tanh_spec()) == T::spec_zero().minus_spec(
                x.tanh_spec(),
            ),
    ensures
        gelu_inner(T::spec_zero().minus_spec(v)) == gelu_inner(v),
        gelu_tanh(T::spec_zero().minus_spec(v)) == T::spec_zero().minus_spec(gelu_tanh(v)),
{
    let zero = T::spec_zero();
    let nv = zero.minus_spec(v);
    let f = gelu_factor::<T>();
    let t = v.times_spec(f);
    let nt = nv.times_spec(f);
    lemma_negative_factor(f, v);
    assert(nt == zero.minus_spec(t));
    // The correction is the same for both.
    let c = T::spec_count(44715).over_spec(T::spec_count(1000000));
    lemma_negative_factor(c, t);
    let ct = c.times_spec(t);
    lemma_negative_factor(zero.minus_spec(ct), t);
    lemma_negative_factor(t, ct);
    lemma_negative_factor(ct.times_spec(t), t);
    assert(c.times_spec(nt).times_spec(nt) == ct.times_spec(t));
    assert(gelu_inner(nv) == gelu_inner(v));
    let inner = gelu_inner(v);
    lemma_negative_factor(two::<T>(), t);
    lemma_negative_factor(inner, two::<T>().times_spec(t));
    let th = gelu_tanh(v);
    assert(gelu_tanh(nv) == zero.minus_spec(th)) by {
        let x = two::<T>().times_spec(t).times_spec(inner);
        assert(zero.minus_spec(x).tanh_spec() == zero.minus_spec(x.tanh_spec()));
    }
}

/// The activation of a number and of its negative differ by the number.
pub proof fn law_gelu_mirror<T: Scalar>(v: T)
    requires
        computes_exactly::<T>(),
        forall|x: T|
            (#[trigger] T::spec_zero().minus_spec(x).tanh_spec()) == T::spec_zero().minus_spec(
                x.tanh_spec(),
            ),
        half::<T>().plus_spec(half()) == one::<T>(),
    ensures
        gelu_spec(v).minus_spec(gelu_spec(T::spec_zero().minus_spec(v))) == v,
{
    let zero = T::spec_zero();
    let th = gelu_tanh(v);
    lemma_mirrored_parts(v);
    let h = half::<T>();
    let hv = h.times_spec(v);
    let nth = zero.minus_spec(th);
    lemma_negative_factor(h, v);
    // -(half (-v) (1 - th)) = half v (1 - th).
    let b = one::<T>().plus_spec(nth);
    lemma_negative_factor(b, hv);
    let g = hv.times_spec(b);
    lemma_negative_factor(g, g);
    let gv = hv.times_spec(one::<T>().plus_spec(th));
    lemma_add(gv, zero.minus_spec(g), g);
    // half v (1 + th) + half v (1 - th) = v.
    lemma_mul(hv, one::<T>(), th);
    lemma_mul(hv, one::<T>(), nth);
    lemma_swap(hv, one::<T>());
    lemma_div(hv, hv, 0);
    lemma_negative_factor(hv, th);
    let y = hv.times_spec(th);
    let ny = zero.minus_spec(y);
    lemma_opposite(y, ny);
    lemma_add(hv, y, hv.plus_spec(ny));
    lemma_add(y, hv, ny);
    lemma_add(hv, y, ny);
    lemma_plus_zero(hv);
    lemma_add(hv, hv, zero);
    // half v + half v = v.
    lemma_swap(h, v);
    lemma_mul(v, h, h);
    lemma_swap(v, one::<T>());
    lemma_div(v, v, 0);
}

/// The correction inside the activation grows with the square of the input: two million times
/// what it adds to one is 44715 times the square.
pub proof fn law_gelu_correction<T: Scalar>(v: T)
    requires
        computes_exactly::<T>(),
        half::<T>().root_spec().times_spec(half::<T>().root_spec()) == half::<T>(),
    ensures
        T::spec_count(1000000).times_spec(gelu_inner(v).minus_spec(one())) == T::spec_count(
            44715,
        ).times_spec(half::<T>().times_spec(v.times_spec(v))),
{
    let zero = T::spec_zero();
    let f = gelu_factor::<T>();
    let t = v.times_spec(f);
    let n = T::spec_count(44715);
    let m = T::spec_count(1000000);
    let c = n.over_spec(m);
    let ct = c.times_spec(t).times_spec(t);
    let o = one::<T>();
    // (1 + ct) - 1 = ct.
    lemma_add(o.plus_spec(ct), o, o);
    lemma_add(o, ct, zero.minus_spec(o));
    lemma_add(ct, o, zero.minus_spec(o));
    lemma_opposite(o, o);
    lemma_plus_zero(ct);
    lemma_add(ct, zero, zero);
    lemma_mul(c, t, t);
    let t2 = t.times_spec(t);
    lemma_mul(m, c, t2);
    lemma_swap(m, c);
    lemma_count_quotient(n, 1000000);
    lemma_square(v, f);
}

/// Whether all projections back into the hidden state are zero.
#[verifier::opaque]
pub open spec fn projections_zero<T: Scalar>(lm: ToyLm<T>) -> bool {
    forall|k: int|
        0 <= k < lm.config.num_layers ==> all_zero((#[trigger] lm.weights.attn_out@[k]).data@)
            && all_zero(lm.weights.ff_down@[k].data@)
}

proof fn lemma_projections_zero<T: Scalar>(lm: ToyLm<T>, k: int)
    requires
        projections_zero(lm),
        0 <= k < lm.config.num_layers,
    ensures
        all_zero(lm.weights.attn_out@[k].data@),
        all_zero(lm.weights.ff_down@[k].data@),
{
    reveal(projections_zero);
    let out = lm.weights.attn_out@[k];
    assert(all_zero(out.data@) && all_zero(lm.weights.ff_down@[k].data@));
}

/// Where all projections back into the hidden state are zero, the layers leave it alone: each
/// layer adds to what is there.
pub proof fn law_idle_layers_keep_state<T: Scalar>(lm: ToyLm<T>, tokens: Seq<u32>, l: nat)
    requires
        computes_exactly::<T>(),
        lm.wf(),
        lm.config.vocab_size > 0,
        l <= lm.config.num_layers,
        projections_zero(lm),
    ensures
        hidden(lm.weights, lm.config, tokens, l) == embedded(lm.weights.token_embed, tokens),
    decreases l,
{
    if l > 0 {
        let k = (l - 1) as nat;
        law_idle_layers_keep_state(lm, tokens, k);
        let w = lm.weights;
        let c = lm.config;
        let x = hidden(w, c, tokens, k);
        let i = k as int;
        lemma_projections_zero(lm, i);
        assert(has_shape(w.attn_out@[i], c.dim as int, c.dim as int));
        assert(has_shape(w.ff_down@[i], c.dim as int, c.ff_dim as int));
        let qkv = applied_rows(w.qkv@[i], norm_rows(x, w.ln1_gain@[i]@));
        let at = attended(qkv, c.dim as int, c.num_heads as int);
        lemma_embedded_rows(w.token_embed, c, tokens);
        lemma_zero_added(w.attn_out@[i], x, at, c.dim as nat);
        let up = gelu_rows(applied_rows(w.ff_up@[i], norm_rows(x, w.ln2_gain@[i]@)));
        lemma_zero_added(w.ff_down@[i], x, up, c.dim as nat);
    }
}

proof fn lemma_embedded_rows<T: Scalar>(e: Matrix<T>, c: Config, tokens: Seq<u32>)
    requires
        has_shape(e, c.vocab_size as int, c.dim as int),
    ensures
        embedded(e, tokens).len() == tokens.len(),
        c.vocab_size > 0 ==> forall|t: int|
            0 <= t < tokens.len() ==> (#[trigger] embedded(e, tokens)[t]).len() == c.dim,
{
    if c.vocab_size > 0 {
        assert forall|t: int| 0 <= t < tokens.len() implies (#[trigger] embedded(
            e,
            tokens,
        )[t]).len() == c.dim by {
            lemma_row_index(e.rows as int, e.cols as int, clamped_token(tokens[t], e.rows as int));
        }
    }
}

proof fn lemma_zero_sum<T: Scalar>(s: Seq<T>, n: nat)
    requires
        computes_exactly::<T>(),
        n <= s.len(),
        forall|i: int| 0 <= i < n ==> #[trigger] s[i] == T::spec_zero(),
    ensures
        sum_of(s, n) == T::spec_zero(),
    decreases n,
{
    if n > 0 {
        lemma_zero_sum(s, (n - 1) as nat);
        lemma_plus_zero(T::spec_zero());
    }
}

proof fn lemma_zero_added<T: Scalar>(m: Matrix<T>, x: Seq<Seq<T>>, h: Seq<Seq<T>>, d: nat)
    requires
        computes_exactly::<T>(),
        m.wf(),
        m.rows == d,
        all_zero(m.data@),
        h.len() == x.len(),
        forall|t: int| 0 <= t < x.len() ==> (#[trigger] x[t]).len() == d,
    ensures
        added_rows(x, applied_rows(m, h)) == x,
{
    assert forall|t: int| 0 <= t < x.len() implies added_rows(x, applied_rows(m, h))[t] == x[t] by {
        let a = applied(m, h[t]);
        assert(x[t].len() == d);
        assert forall|j: int| 0 <= j < d implies added(x[t], a)[j] == x[t][j] by {
            lemma_row_index(m.rows as int, m.cols as int, j);
            let p = products(h[t], m.row_seq(j));
            assert forall|i: int| 0 <= i < p.len() implies #[trigger] p[i] == T::spec_zero() by {
                lemma_mul(h[t][i], h[t][i], h[t][i]);
            }
            lemma_zero_sum(p, p.len());
            lemma_plus_zero(x[t][j]);
        }
        assert(added(x[t], a) =~= x[t]);
    }
    assert(added_rows(x, applied_rows(m, h)) =~= x);
}

/// A matrix whose row `j` is a unit vector hands a number of its input on.
proof fn lemma_row_picks<T: Scalar>(m: Matrix<T>, x: Seq<T>, j: int, k: int)
    requires
        computes_exactly::<T>(),
        0 <= j < m.rows,
        0 <= k < x.len(),
        m.row_seq(j) == unit_vector::<T>(x.len(), k),
    ensures
        applied(m, x)[j] == x[k],
{
    law_dot_picks(x, k);
}

/// The identity matrix gives back what it is applied to.
pub proof fn law_identity_matrix<T: Scalar>(m: Matrix<T>, x: Seq<T>)
    requires
        computes_exactly::<T>(),
        m.rows == x.len(),
        forall|j: int| 0 <= j < m.rows ==> #[trigger] m.row_seq(j) == unit_vector::<T>(x.len(), j),
    ensures
        applied(m, x) == x,
{
    assert forall|j: int| 0 <= j < x.len() implies applied(m, x)[j] == x[j] by {
        assert(m.row_seq(j) == unit_vector::<T>(x.len(), j));
        lemma_row_picks(m, x, j, j);
    }
    assert(applied(m, x) =~= x);
}

/// A matrix takes sums to sums and multiples to multiples.
pub proof fn law_matrix_linear<T: Scalar>(m: Matrix<T>, a: Seq<T>, b: Seq<T>, f: T)
    requires
        computes_exactly::<T>(),
        m.wf(),
        a.len() == m.cols,
        b.len() == m.cols,
    ensures
        applied(m, added(a, b)) == added(applied(m, a), applied(m, b)),
        applied(m, a.map_values(|v: T| f.times_spec(v))) == applied(m, a).map_values(
            |v: T| f.times_spec(v),
        ),
{
    let many = a.map_values(|v: T| f.times_spec(v));
    assert forall|j: int| 0 <= j < m.rows implies #[trigger] applied(m, added(a, b))[j] == applied(
        m,
        a,
    )[j].plus_spec(applied(m, b)[j]) && applied(m, many)[j] == f.times_spec(applied(m, a)[j]) by {
        let w = m.row_seq(j);
        lemma_row_index(m.rows as int, m.cols as int, j);
        law_dot_symmetric(added(a, b), w);
        law_dot_symmetric(a, w);
        law_dot_symmetric(b, w);
        law_dot_symmetric(many, w);
        law_dot_linear(w, a, b, f);
        assert(added(a, b) =~= Seq::new(w.len(), |i: int| a[i].plus_spec(b[i])));
        assert(many =~= Seq::new(w.len(), |i: int| f.times_spec(a[i])));
    }
    assert(applied(m, added(a, b)) =~= added(applied(m, a), applied(m, b)));
    assert forall|j: int| 0 <= j < m.rows implies applied(m, many)[j] == f.times_spec(
        applied(m, a)[j],
    ) by {
        assert(applied(m, added(a, b))[j] == applied(m, a)[j].plus_spec(applied(m, b)[j]));
    }
    assert(applied(m, many) =~= applied(m, a).map_values(|v: T| f.times_spec(v)));
}

/// The feed-forward block adds to the hidden state what its second matrix picks from the
/// activations: where row `j` of that matrix is a unit vector, column `j` of a state grows by
/// the activation of the first matrix's row at that place, applied to the normalised state.
pub proof fn law_feed_forward_adds<T: Scalar>(
    w: ToyLmWeights<T>,
    c: Config,
    l: int,
    x: Seq<Seq<T>>,
    t: int,
    j: int,
    k: int,
)
    requires
        computes_exactly::<T>(),
        weights_fit(w, c),
        0 <= l < c.num_layers,
        0 <= t < x.len(),
        x[t].len() == c.dim,
        0 <= j < c.dim,
        0 <= k < c.ff_dim,
        w.ff_down@[l].row_seq(j) == unit_vector::<T>(c.ff_dim as nat, k),
    ensures
        after_feed_forward(w, l, x)[t][j] == x[t][j].plus_spec(
            gelu_spec(dot_spec(norm_row(x[t], w.ln2_gain@[l]@), w.ff_up@[l].row_seq(k))),
        ),
{
    assert(has_shape(w.ff_up@[l], c.ff_dim as int, c.dim as int));
    assert(has_shape(w.ff_down@[l], c.dim as int, c.ff_dim as int));
    let h = norm_row(x[t], w.ln2_gain@[l]@);
    let up = gelu_all(applied(w.ff_up@[l], h));
    lemma_row_picks(w.ff_down@[l], up, j, k);
}

/// Attention adds to the hidden state what its projection picks from the heads: where row `j`
/// of the projection is a unit vector, column `j` of a state grows by the heads' output at that
/// place, for the normalised states.
pub proof fn law_attention_adds<T: Scalar>(
    w: ToyLmWeights<T>,
    c: Config,
    l: int,
    x: Seq<Seq<T>>,
    t: int,
    j: int,
    k: int,
)
    requires
        computes_exactly::<T>(),
        weights_fit(w, c),
        0 <= l < c.num_layers,
        0 <= t < x.len(),
        x[t].len() == c.dim,
        0 <= j < c.dim,
        0 <= k < c.dim,
        w.attn_out@[l].row_seq(j) == unit_vector::<T>(c.dim as nat, k),
    ensures
        after_attention(w, c, l, x)[t][j] == x[t][j].plus_spec(
            attended(
                applied_rows(w.qkv@[l], norm_rows(x, w.ln1_gain@[l]@)),
                c.dim as int,
                c.num_heads as int,
            )[t][k],
        ),
{
    assert(has_shape(w.attn_out@[l], c.dim as int, c.dim as int));
    let qkv = applied_rows(w.qkv@[l], norm_rows(x, w.ln1_gain@[l]@));
    let at = attended(qkv, c.dim as int, c.num_heads as int);
    lemma_row_picks(w.attn_out@[l], at[t], j, k);
}

/// The scores of a model whose layers are idle: each is the inner product of the normalised
/// embedding of the token with the embedding of the next one, so that the head is tied to the
/// embedding.
pub proof fn law_idle_model_scores<T: Scalar>(lm: ToyLm<T>, tokens: Seq<u32>, t: int, v: int)
    requires
        computes_exactly::<T>(),
        lm.wf(),
        lm.config.vocab_size > 0,
        projections_zero(lm),
        0 <= t < tokens.len(),
        tokens[t] < lm.config.vocab_size,
        0 <= v < lm.config.vocab_size,
    ensures
        logits_spec(lm, tokens)[t][v] == dot_spec(
            norm_row(
                lm.weights.token_embed.row_seq(tokens[t] as int),
                lm.weights.ln_f_gain@,
            ),
            lm.weights.token_embed.row_seq(v),
        ),
{
    law_idle_layers_keep_state(lm, tokens, lm.config.num_layers as nat);
}

/// Retrieval reads the values by the weights of their slots: where row `j` of the values is a
/// unit vector, entry `j` of what is retrieved is the weight of that slot.
pub proof fn law_retrieval_reads_slot<T: Scalar>(
    keys: Matrix<T>,
    values: Matrix<T>,
    query: Seq<T>,
    beta: T,
    j: int,
    k: int,
)
    requires
        computes_exactly::<T>(),
        0 <= j < values.rows,
        0 <= k < keys.rows,
        values.row_seq(j) == unit_vector::<T>(keys.rows as nat, k),
    ensures
        retrieved(keys, values, query, beta)[j] == softmax_spec(slot_scores(keys, query, beta))[k],
{
    law_dot_picks(softmax_spec(slot_scores(keys, query, beta)), k);
}

/// What is retrieved is a weighted mean of the values: where a row of the values has the same
/// number in every slot, that number is retrieved.
pub proof fn law_retrieval_is_a_mean<T: Scalar>(
    keys: Matrix<T>,
    values: Matrix<T>,
    query: Seq<T>,
    beta: T,
    j: int,
    x: T,
)
    requires
        computes_exactly::<T>(),
        0 <= j < values.rows,
        values.row_seq(j) == Seq::new(keys.rows as nat, |i: int| x),
        T::spec_zero().below_spec(
            sum_of(shifted_exps(slot_scores(keys, query, beta)), keys.rows as nat),
        ),
        forall|y: T|
            T::spec_zero().below_spec(y) ==> y.times_spec(#[trigger] one::<T>().over_spec(y))
                == one::<T>(),
    ensures
        retrieved(keys, values, query, beta)[j] == x,
{
    let s = slot_scores(keys, query, beta);
    let p = softmax_spec(s);
    let row = values.row_seq(j);
    law_softmax_sums_to_one(s);
    let q = products(row, p);
    assert forall|i: int| 0 <= i < p.len() implies #[trigger] q[i] == x.times_spec(p[i]) by {}
    lemma_sum_scales(x, p, q, p.len());
    assert(q.len() == p.len());
    lemma_swap(x, one::<T>());
    lemma_div(x, x, 0);
}

/// With retrieval a layer adds to the hidden state what the memory gives for the normalised
/// state.
pub proof fn law_retrieval_adds<T: Scalar>(
    w: ToyLmWeights<T>,
    c: Config,
    l: int,
    x: Seq<Seq<T>>,
    beta: T,
    t: int,
    j: int,
    k: int,
)
    requires
        computes_exactly::<T>(),
        weights_fit(w, c),
        0 <= l < c.num_layers,
        0 <= t < x.len(),
        x[t].len() == c.dim,
        0 <= j < c.dim,
        0 <= k < c.ff_dim,
        w.ff_down@[l].row_seq(j) == unit_vector::<T>(c.ff_dim as nat, k),
    ensures
        after_retrieval(w, l, x, beta)[t][j] == x[t][j].plus_spec(
            softmax_spec(slot_scores(w.ff_up@[l], norm_row(x[t], w.ln2_gain@[l]@), beta))[k],
        ),
{
    assert(has_shape(w.ff_up@[l], c.ff_dim as int, c.dim as int));
    assert(has_shape(w.ff_down@[l], c.dim as int, c.ff_dim as int));
    law_retrieval_reads_slot(
        w.ff_up@[l],
        w.ff_down@[l],
        norm_row(x[t], w.ln2_gain@[l]@),
        beta,
        j,
        k,
    );
}

/// The weights of softmax are in proportion to the exponentials of the scores: one weight is
/// another one times the exponential of the difference of their scores.
pub proof fn law_softmax_ratio<T: Scalar>(s: Seq<T>, i: int, j: int)
    requires
        computes_exactly::<T>(),
        0 <= i < s.len(),
        0 <= j < s.len(),
        forall|a: T, b: T| #[trigger]
            a.plus_spec(b).exp_spec() == a.exp_spec().times_spec(b.exp_spec()),
    ensures
        softmax_spec(s)[j] == softmax_spec(s)[i].times_spec(s[j].minus_spec(s[i]).exp_spec()),
{
    let e = shifted_exps(s);
    let top = max_upto(s, s.len());
    let inv = inverse_or_zero(sum_of(e, e.len()));
    let a = s[i].minus_spec(top);
    let b = s[j].minus_spec(s[i]);
    lemma_difference_chain(s[j], s[i], top);
    assert(a.plus_spec(b).exp_spec() == a.exp_spec().times_spec(b.exp_spec()));
    lemma_mul(e[i], b.exp_spec(), inv);
    lemma_swap(b.exp_spec(), inv);
    lemma_mul(e[i], inv, b.exp_spec());
}

/// The probabilities of the next tokens are in proportion to the exponentials of the scores.
pub proof fn law_probability_ratio<T: Scalar>(s: Seq<T>, i: int, j: int)
    requires
        computes_exactly::<T>(),
        0 <= i < s.len(),
        0 <= j < s.len(),
        forall|a: T, b: T| #[trigger]
            a.plus_spec(b).exp_spec() == a.exp_spec().times_spec(b.exp_spec()),
    ensures
        prob_row(s)[j] == prob_row(s)[i].times_spec(s[j].minus_spec(s[i]).exp_spec()),
{
    let e = shifted_exps(s);
    let top = max_upto(s, s.len());
    let sum = sum_of(e, e.len());
    let inv = one::<T>().over_spec(sum);
    let a = s[i].minus_spec(top);
    let b = s[j].minus_spec(s[i]);
    lemma_difference_chain(s[j], s[i], top);
    assert(a.plus_spec(b).exp_spec() == a.exp_spec().times_spec(b.exp_spec()));
    lemma_div(e[i], sum, 0);
    lemma_div(e[j], sum, 0);
    lemma_mul(e[i], b.exp_spec(), inv);
    lemma_swap(b.exp_spec(), inv);
    lemma_mul(e[i], inv, b.exp_spec());
}

/// Differences to the same number differ by the difference.
proof fn lemma_difference_chain<T: Scalar>(x: T, y: T, z: T)
    requires
        computes_exactly::<T>(),
    ensures
        y.minus_spec(z).plus_spec(x.minus_spec(y)) == x.minus_spec(z),
{
    let zero = T::spec_zero();
    let (ny, nz) = (zero.minus_spec(y), zero.minus_spec(z));
    lemma_add(y, z, z);
    lemma_add(x, y, y);
    lemma_add(x, z, z);
    lemma_opposite(y, ny);
    // (y + -z) + (x + -y) = x + -z.
    lemma_add(y, nz, x.plus_spec(ny));
    lemma_add(nz, x, ny);
    lemma_add(nz.plus_spec(x), ny, y);
    lemma_add(y, nz.plus_spec(x).plus_spec(ny), zero);
    lemma_add(nz.plus_spec(x), ny, y);
    lemma_add(ny, y, zero);
    lemma_plus_zero(nz.plus_spec(x));
    lemma_add(nz, x, zero);
}

/// The activation is the number times a gate: the logistic function of four times the corrected
/// number over the square root of two.
pub proof fn law_gelu_is_gated<T: Scalar>(v: T)
    requires
        computes_exactly::<T>(),
        forall|y: T|
            half::<T>().times_spec(one::<T>().plus_spec(#[trigger] y.tanh_spec()))
                == sigmoid_spec(y.plus_spec(y)),
    ensures
        ({
            let t = v.times_spec(half::<T>().root_spec());
            let y = two::<T>().times_spec(t).times_spec(
                one::<T>().plus_spec(
                    T::spec_count(44715).over_spec(T::spec_count(1000000)).times_spec(
                        t,
                    ).times_spec(t),
                ),
            );
            gelu_spec(v) == v.times_spec(sigmoid_spec(y.plus_spec(y)))
        }),
{
    let h = half::<T>();
    let g = one::<T>().plus_spec(gelu_tanh(v));
    lemma_swap(h, v);
    lemma_mul(v, h, g);
    let t = v.times_spec(h.root_spec());
    let y = two::<T>().times_spec(t).times_spec(gelu_inner(v));
    assert(gelu_tanh(v) == y.tanh_spec());
    assert(h.times_spec(one::<T>().plus_spec(y.tanh_spec()))
        == sigmoid_spec(y.plus_spec(y)));
}

/// Tokens that the model does not know are read as the last one that it knows, and others as
/// themselves.
pub proof fn law_unknown_tokens<T: Scalar>(e: Matrix<T>, tokens: Seq<u32>, known: Seq<u32>)
    requires
        0 < e.rows <= u32::MAX,
        known.len() == tokens.len(),
        forall|t: int|
            0 <= t < tokens.len() ==> #[trigger] known[t] == if tokens[t] < e.rows {
                tokens[t]
            } else {
                (e.rows - 1) as u32
            },
    ensures
        embedded(e, tokens) == embedded(e, known),
        forall|t: int|
            0 <= t < tokens.len() ==> #[trigger] embedded(e, tokens)[t] == e.row_seq(
                known[t] as int,
            ),
{
    assert(embedded(e, tokens) =~= embedded(e, known));
}

/// The numbers that the first `n` layers hold.
pub open spec fn numbers_upto<T>(w: ToyLmWeights<T>, n: nat) -> nat
    decreases n,
{
    if n == 0 {
        0
    } else {
        let l = n - 1;
        numbers_upto(w, l as nat) + w.qkv@[l].data@.len() + w.attn_out@[l].data@.len()
            + w.ff_up@[l].data@.len() + w.ff_down@[l].data@.len() + w.ln1_gain@[l]@.len()
            + w.ln2_gain@[l]@.len()
    }
}

/// The number of parameters is the number of numbers that the weights hold.
pub proof fn law_parameters_counted<T>(w: ToyLmWeights<T>, c: Config)
    requires
        weights_fit(w, c),
    ensures
        param_count(c) == w.token_embed.data@.len() + numbers_upto(w, c.num_layers as nat)
            + w.ln_f_gain@.len(),
{
    lemma_numbers(w, c, c.num_layers as nat);
}

proof fn lemma_numbers<T>(w: ToyLmWeights<T>, c: Config, n: nat)
    requires
        weights_fit(w, c),
        n <= c.num_layers,
    ensures
        numbers_upto(w, n) == n * (layer_params(c) + 2 * c.dim),
    decreases n,
{
    if n > 0 {
        let l = n - 1;
        lemma_numbers(w, c, l as nat);
        let d = c.dim as int;
        let f = c.ff_dim as int;
        assert(has_shape(w.qkv@[l], 3 * d, d));
        assert(has_shape(w.attn_out@[l], d, d));
        assert(has_shape(w.ff_up@[l], f, d));
        assert(has_shape(w.ff_down@[l], d, f));
        assert(w.ln1_gain@[l]@.len() == d && w.ln2_gain@[l]@.len() == d);
        assert((3 * d) * d == 3 * (d * d)) by (nonlinear_arith);
        let k = layer_params(c) + 2 * c.dim;
        assert(n * k == l * k + k) by (nonlinear_arith)
            requires
                l == n - 1,
        ;
    } else {
        assert(0 * (layer_params(c) + 2 * c.dim) == 0) by (nonlinear_arith);
    }
}

/// How much more weight a head gives to one position than to another grows with the exponential of
/// the difference of the inner products with the query, over the square root of the head's width.
pub proof fn law_attention_ratio<T: Scalar>(
    q: Seq<Seq<T>>,
    k: Seq<Seq<T>>,
    head_dim: usize,
    h: int,
    i: int,
    a: int,
    b: int,
)
    requires
        computes_exactly::<T>(),
        0 <= a <= i,
        0 <= b <= i,
        forall|x: T, y: T| #[trigger]
            x.plus_spec(y).exp_spec() == x.exp_spec().times_spec(y.exp_spec()),
    ensures
        ({
            let x = dot_spec(row_of(q[i], head_dim as int, h), row_of(k[a], head_dim as int, h));
            let y = dot_spec(row_of(q[i], head_dim as int, h), row_of(k[b], head_dim as int, h));
            let w = head_weights(q, k, head_dim as int, h, i);
            w[b] == w[a].times_spec(
                y.minus_spec(x).over_spec(T::spec_count(head_dim).root_spec()).exp_spec(),
            )
        }),
{
    let d = head_dim as int;
    let x = dot_spec(row_of(q[i], d, h), row_of(k[a], d, h));
    let y = dot_spec(row_of(q[i], d, h), row_of(k[b], d, h));
    let r = T::spec_count(head_dim).root_spec();
    let scale = one::<T>().over_spec(r);
    law_softmax_ratio(head_scores(q, k, d, h, i), a, b);
    lemma_difference_scales(scale, y, x);
    lemma_div(y.minus_spec(x), r, 0);
}

/// A multiple of a difference is the difference of the multiples.
proof fn lemma_difference_scales<T: Scalar>(f: T, x: T, y: T)
    requires
        computes_exactly::<T>(),
    ensures
        f.times_spec(x).minus_spec(f.times_spec(y)) == f.times_spec(x.minus_spec(y)),
        x.times_spec(f).minus_spec(y.times_spec(f)) == x.minus_spec(y).times_spec(f),
{
    let zero = T::spec_zero();
    lemma_add(x, y, y);
    lemma_add(f.times_spec(x), f.times_spec(y), zero);
    lemma_mul(f, x, zero.minus_spec(y));
    lemma_negative_factor(f, y);
    lemma_swap(f, x);
    lemma_swap(f, y);
    lemma_swap(f, x.minus_spec(y));
}

/// How much more weight retrieval gives to one slot than to another grows with the exponential of
/// the difference of the inner products with the query, times the sharpness.
pub proof fn law_retrieval_ratio<T: Scalar>(
    keys: Matrix<T>,
    query: Seq<T>,
    beta: T,
    a: int,
    b: int,
)
    requires
        computes_exactly::<T>(),
        0 <= a < keys.rows,
        0 <= b < keys.rows,
        forall|x: T, y: T| #[trigger]
            x.plus_spec(y).exp_spec() == x.exp_spec().times_spec(y.exp_spec()),
    ensures
        ({
            let w = softmax_spec(slot_scores(keys, query, beta));
            w[b] == w[a].times_spec(
                beta.times_spec(
                    dot_spec(keys.row_seq(b), query).minus_spec(dot_spec(keys.row_seq(a), query)),
                ).exp_spec(),
            )
        }),
{
    law_softmax_ratio(slot_scores(keys, query, beta), a, b);
    lemma_difference_scales(
        beta,
        dot_spec(keys.row_seq(b), query),
        dot_spec(keys.row_seq(a), query),
    );
}

/// A new model takes its random numbers one after the other: the embedding first, and each layer
/// where the one before it stopped, so that no number is used twice or left out.
pub proof fn law_random_numbers_in_turn<T: Scalar>(
    w: ToyLmWeights<T>,
    c: Config,
    seed: u64,
    l: int,
)
    requires
        weights_fit(w, c),
        0 <= l < c.num_layers,
    ensures
        layer_state(c, seed, 0) == state_after(seed_state(seed), w.token_embed.data@.len()),
        layer_state(c, seed, (l + 1) as nat) == state_after(
            layer_state(c, seed, l as nat),
            w.qkv@[l].data@.len() + w.attn_out@[l].data@.len() + w.ff_up@[l].data@.len()
                + w.ff_down@[l].data@.len(),
        ),
{
    let d = c.dim as int;
    let f = c.ff_dim as int;
    assert(has_shape(w.qkv@[l], 3 * d, d));
    assert(has_shape(w.attn_out@[l], d, d));
    assert(has_shape(w.ff_up@[l], f, d));
    assert(has_shape(w.ff_down@[l], d, f));
    let k = random_layer(c);
    let base = (c.vocab_size * c.dim) as nat + (l as nat) * k;
    lemma_state_after(seed_state(seed), base, k);
    assert((l + 1) * k == l * k + k) by (nonlinear_arith);
    assert(0 * k == 0) by (nonlinear_arith);
}

/// Attention asks with the first third of a row only at the row's own position: what stands in
/// the first third of other rows does not matter there, as long as the other two thirds agree.
pub proof fn law_queries_are_own<T: Scalar>(
    a: Seq<Seq<T>>,
    b: Seq<Seq<T>>,
    dim: int,
    num_heads: int,
    i: int,
)
    requires
        0 < num_heads <= dim,
        b.len() == a.len(),
        0 <= i < a.len(),
        row_of(a[i], dim, 0) == row_of(b[i], dim, 0),
        forall|j: int|
            0 <= j <= i ==> row_of(#[trigger] a[j], dim, 1) == row_of(b[j], dim, 1) && row_of(
                a[j],
                dim,
                2,
            ) == row_of(b[j], dim, 2),
    ensures
        attended(a, dim, num_heads)[i] == attended(b, dim, num_heads)[i],
{
    let d = dim as nat;
    let (q1, k1, v1) = (row_parts(a, d, 0), row_parts(a, d, 1), row_parts(a, d, 2));
    let (q2, k2, v2) = (row_parts(b, d, 0), row_parts(b, d, 1), row_parts(b, d, 2));
    let x = attended(a, dim, num_heads)[i];
    let y = attended(b, dim, num_heads)[i];
    assert forall|j: int| 0 <= j <= i implies #[trigger] k1[j] == k2[j] && v1[j] == v2[j] by {
        assert(row_of(a[j], dim, 1) == row_of(b[j], dim, 1));
    }
    assert forall|j: int| 0 <= j <= i implies #[trigger] v1[j] == v2[j] by {
        assert(k1[j] == k2[j]);
    }
    assert(q1[i] == q2[i]);
    assert forall|c: int| 0 <= c < dim implies x[c] == y[c] by {
        if c < num_heads * (dim / num_heads) {
            law_heads_are_independent(q1, k1, v1, q2, k2, v2, dim, num_heads, i, c);
        }
    }
    assert(x =~= y);
}

/// What attention gives is a mean of the last thirds of the rows: a number that all of them have
/// in the same place comes out in that place.
pub proof fn law_values_come_out<T: Scalar>(
    qkv: Seq<Seq<T>>,
    dim: int,
    num_heads: int,
    i: int,
    c: int,
    x: T,
)
    requires
        computes_exactly::<T>(),
        0 < num_heads <= dim,
        0 <= i < qkv.len(),
        0 <= c < num_heads * (dim / num_heads),
        c < dim,
        forall|j: int|
            0 <= j <= i ==> (#[trigger] qkv[j]).len() == 3 * dim && qkv[j][2 * dim + c] == x,
        T::spec_zero().below_spec(
            sum_of(
                shifted_exps(
                    head_scores(
                        row_parts(qkv, dim as nat, 0),
                        row_parts(qkv, dim as nat, 1),
                        dim / num_heads,
                        c / (dim / num_heads),
                        i,
                    ),
                ),
                (i + 1) as nat,
            ),
        ),
        forall|y: T|
            T::spec_zero().below_spec(y) ==> y.times_spec(#[trigger] one::<T>().over_spec(y))
                == one::<T>(),
    ensures
        attended(qkv, dim, num_heads)[i][c] == x,
{
    let d = dim as nat;
    let v = row_parts(qkv, d, 2);
    assert forall|j: int| 0 <= j <= i implies (#[trigger] v[j])[c] == x by {
        assert(qkv[j].len() == 3 * dim);
        assert(row_of(qkv[j], dim, 2)[c] == qkv[j][2 * dim + c]);
    }
    law_attention_is_a_mean(
        row_parts(qkv, d, 0),
        row_parts(qkv, d, 1),
        v,
        dim,
        num_heads,
        i,
        c,
        x,
    );
}

} // verus!
