//! What the parts of the forward pass do with the order and the size of their inputs.

use vstd::prelude::*;
use crate::order::{
    compares, finite, keeps_order, lemma_between_finite, lemma_chain, lemma_exp, lemma_inverse,
    lemma_minus, lemma_not_below, lemma_plus, lemma_positive, lemma_positive_count, lemma_root,
    lemma_sum_bounds, lemma_tanh, lemma_times, lemma_times_naught,
};
use crate::scalar::{dot_spec, products, sum_of, Scalar};
use crate::tensor::{row_of, Matrix};
use crate::toy_lm::slot_scores;
use crate::transformer::{
    gelu_spec, gelu_tanh, half, head_scores, head_weights, inverse_or_zero, max_upto, mean_spec,
    norm_floor, norm_row, one, rstd_spec, shifted_exps, softmax_spec, squared_deviations, two,
    variance_spec,
};

verus! {

/// The largest of finite numbers is one of them and not less than any.
proof fn lemma_max<T: Scalar>(s: Seq<T>, n: nat)
    requires
        compares::<T>(),
        0 < n <= s.len(),
        forall|i: int| 0 <= i < n ==> finite(#[trigger] s[i]),
    ensures
        exists|m: int| 0 <= m < n && #[trigger] s[m] == max_upto(s, n),
        forall|i: int| 0 <= i < n ==> (#[trigger] s[i]).at_most_spec(max_upto(s, n)),
    decreases n,
{
    let x = s[n - 1];
    assert(finite(x));
    lemma_not_below(x, x);
    if n == 1 {
        assert(max_upto(s, 0) == T::spec_lowest());
        assert(s[0] == max_upto(s, n));
    } else {
        let k = (n - 1) as nat;
        lemma_max(s, k);
        let m = choose|m: int| 0 <= m < k && #[trigger] s[m] == max_upto(s, k);
        let top = s[m];
        assert(finite(top));
        lemma_not_below(top, top);
        lemma_not_below(top, x);
        lemma_not_below(x, top);
        if top.below_spec(x) {
            assert(s[n - 1] == max_upto(s, n));
            assert forall|i: int| 0 <= i < n implies (#[trigger] s[i]).at_most_spec(x) by {
                if i < k {
                    lemma_chain(s[i], top, x);
                }
            }
        } else {
            assert(s[m] == max_upto(s, n));
        }
    }
}

/// What softmax computes with: the exponentials lie between zero and one, at least one of them
/// counts as one, and so does their inverted sum not exceed one.
pub proof fn lemma_exps<T: Scalar>(s: Seq<T>)
    requires
        keeps_order::<T>(),
        s.len() > 0,
        forall|i: int| 0 <= i < s.len() ==> finite(#[trigger] s[i]),
    ensures
        ({
            let e = shifted_exps(s);
            let inv = inverse_or_zero(sum_of(e, e.len()));
            &&& forall|i: int|
                0 <= i < s.len() ==> T::spec_zero().at_most_spec(#[trigger] e[i])
                    && e[i].at_most_spec(one()) && finite(e[i])
            &&& forall|i: int, j: int|
                0 <= i < s.len() && 0 <= j < s.len() && s[i].at_most_spec(s[j]) ==> (
                #[trigger] e[i]).at_most_spec(#[trigger] e[j])
            &&& one::<T>().at_most_spec(sum_of(e, e.len()))
            &&& inv == one::<T>().over_spec(sum_of(e, e.len()))
            &&& T::spec_zero().at_most_spec(inv) && inv.at_most_spec(one()) && finite(inv)
        }),
{
    let e = shifted_exps(s);
    let top = max_upto(s, s.len());
    let zero = T::spec_zero();
    lemma_max(s, s.len());
    let m = choose|m: int| 0 <= m < s.len() && #[trigger] s[m] == top;
    assert(finite(top));
    lemma_not_below(zero, zero);
    assert forall|i: int| 0 <= i < s.len() implies zero.at_most_spec(#[trigger] e[i])
        && e[i].at_most_spec(one()) && finite(e[i]) by {
        let x = s[i].minus_spec(top);
        let y = top.minus_spec(top);
        lemma_minus(s[i], top, top);
        lemma_minus(top, top, top);
        lemma_not_below(x, y);
        lemma_exp(x, y);
        lemma_exp(y, y);
        lemma_chain(x.exp_spec(), y.exp_spec(), one());
        lemma_between_finite(zero, x.exp_spec(), one());
    }
    assert forall|i: int, j: int|
        0 <= i < s.len() && 0 <= j < s.len() && s[i].at_most_spec(s[j]) implies (
    #[trigger] e[i]).at_most_spec(#[trigger] e[j]) by {
        lemma_minus(s[i], s[j], top);
        lemma_exp(s[i].minus_spec(top), s[j].minus_spec(top));
    }
    lemma_sum_bounds(e, e.len());
    let sum = sum_of(e, e.len());
    assert(one::<T>().at_most_spec(e[m])) by {
        lemma_minus(top, top, top);
        lemma_exp(top.minus_spec(top), top);
    }
    lemma_chain(one::<T>(), e[m], sum);
    lemma_not_below(zero, sum);
    lemma_positive(one::<T>(), sum);
    let inv = one::<T>().over_spec(sum);
    lemma_inverse(sum);
    lemma_between_finite(zero, inv, one());
}

/// Softmax turns finite scores into weights: each lies between zero and one, and a higher
/// score never gets a lower weight.
pub proof fn law_softmax_keeps_order<T: Scalar>(s: Seq<T>)
    requires
        keeps_order::<T>(),
        forall|i: int| 0 <= i < s.len() ==> finite(#[trigger] s[i]),
    ensures
        softmax_spec(s).len() == s.len(),
        forall|i: int|
            0 <= i < s.len() ==> T::spec_zero().at_most_spec(#[trigger] softmax_spec(s)[i])
                && softmax_spec(s)[i].at_most_spec(one()),
        forall|i: int, j: int|
            0 <= i < s.len() && 0 <= j < s.len() && s[i].at_most_spec(s[j]) ==> (
            #[trigger] softmax_spec(s)[i]).at_most_spec(#[trigger] softmax_spec(s)[j]),
{
    if s.len() > 0 {
        let e = shifted_exps(s);
        let inv = inverse_or_zero(sum_of(e, e.len()));
        let zero = T::spec_zero();
        lemma_exps(s);
        lemma_not_below(zero, zero);
        assert forall|i: int, j: int|
            0 <= i < s.len() && 0 <= j < s.len() && s[i].at_most_spec(s[j]) implies (
        #[trigger] softmax_spec(s)[i]).at_most_spec(#[trigger] softmax_spec(s)[j]) by {
            assert(e[i].at_most_spec(e[j]));
            lemma_times(e[i], e[j], inv);
        }
        assert forall|i: int| 0 <= i < s.len() implies zero.at_most_spec(
            #[trigger] softmax_spec(s)[i],
        ) && softmax_spec(s)[i].at_most_spec(one()) by {
            let p = softmax_spec(s)[i];
            assert(zero.at_most_spec(e[i]) && e[i].at_most_spec(one()));
            lemma_times(zero, e[i], inv);
            lemma_times_naught(inv, zero);
            lemma_times(inv, one::<T>(), e[i]);
            lemma_times(e[i], e[i], one::<T>());
            lemma_chain(zero, zero.times_spec(inv), p);
            lemma_chain(p, e[i].times_spec(one()), e[i]);
            lemma_chain(p, e[i], one());
        }
    }
}

/// Attention prefers the keys that match better: where the inner product of a query with one
/// key is not lower than with another, the key gets no lower weight. Each weight lies between
/// zero and one.
pub proof fn law_attention_prefers_matching_keys<T: Scalar>(
    q: Seq<Seq<T>>,
    k: Seq<Seq<T>>,
    head_dim: int,
    h: int,
    i: int,
    a: int,
    b: int,
)
    requires
        keeps_order::<T>(),
        0 < head_dim <= usize::MAX,
        0 <= a <= i,
        0 <= b <= i,
        forall|j: int|
            0 <= j <= i ==> finite(
                #[trigger] dot_spec(row_of(q[i], head_dim, h), row_of(k[j], head_dim, h)),
            ) && finite(
                dot_spec(row_of(q[i], head_dim, h), row_of(k[j], head_dim, h)).times_spec(
                    one::<T>().over_spec(T::spec_count(head_dim as usize).root_spec()),
                ),
            ),
        dot_spec(row_of(q[i], head_dim, h), row_of(k[b], head_dim, h)).at_most_spec(
            dot_spec(row_of(q[i], head_dim, h), row_of(k[a], head_dim, h)),
        ),
    ensures
        head_weights(q, k, head_dim, h, i).len() == i + 1,
        head_weights(q, k, head_dim, h, i)[b].at_most_spec(head_weights(q, k, head_dim, h, i)[a]),
        T::spec_zero().at_most_spec(head_weights(q, k, head_dim, h, i)[a]),
        head_weights(q, k, head_dim, h, i)[a].at_most_spec(one()),
{
    let s = head_scores(q, k, head_dim, h, i);
    let n = T::spec_count(head_dim as usize);
    let scale = one::<T>().over_spec(n.root_spec());
    let da = dot_spec(row_of(q[i], head_dim, h), row_of(k[a], head_dim, h));
    let db = dot_spec(row_of(q[i], head_dim, h), row_of(k[b], head_dim, h));
    lemma_positive_count::<T>(head_dim as usize);
    lemma_root(n);
    lemma_not_below(T::spec_zero(), scale);
    assert(finite(da) && finite(db));
    lemma_times(db, da, scale);
    assert(s[a] == da.times_spec(scale) && s[b] == db.times_spec(scale));
    assert forall|j: int| 0 <= j < s.len() implies finite(#[trigger] s[j]) by {
        let d = dot_spec(row_of(q[i], head_dim, h), row_of(k[j], head_dim, h));
        assert(s[j] == d.times_spec(scale));
        assert(finite(d));
    }
    law_softmax_keeps_order(s);
    let p = softmax_spec(s);
    assert(p[b].at_most_spec(p[a]));
}

/// Normalisation keeps the order of the numbers that have the same gain, where the gain is not
/// negative: a higher number does not come out lower.
pub proof fn law_norm_keeps_order<T: Scalar>(row: Seq<T>, gain: Seq<T>, a: int, b: int)
    requires
        keeps_order::<T>(),
        0 <= a < row.len(),
        0 <= b < row.len(),
        row[a].at_most_spec(row[b]),
        gain[a] == gain[b],
        finite(gain[a]),
        T::spec_zero().at_most_spec(gain[a]),
        ({
            let n = T::spec_count(row.len() as usize);
            let m = sum_of(row, row.len()).over_spec(n);
            let dev = Seq::new(row.len(), |i: int| row[i].minus_spec(m));
            let x = dot_spec(dev, dev).over_spec(n).plus_spec(
                one::<T>().over_spec(T::spec_count(100000)),
            );
            &&& finite(m)
            &&& finite(dev[a]) && finite(dev[b])
            &&& finite(gain[a].times_spec(dev[a])) && finite(gain[a].times_spec(dev[b]))
            &&& finite(x) && T::spec_zero().below_spec(x)
        }),
    ensures
        norm_row(row, gain)[a].at_most_spec(norm_row(row, gain)[b]),
{
    let n = T::spec_count(row.len() as usize);
    let m = mean_spec(row);
    let dev = Seq::new(row.len(), |i: int| row[i].minus_spec(m));
    let x = dot_spec(dev, dev).over_spec(n).plus_spec(norm_floor::<T>());
    assert(products(dev, dev) =~= squared_deviations(row, m));
    assert(variance_spec(row).plus_spec(norm_floor::<T>()) == x);
    let r = one::<T>().over_spec(x.root_spec());
    assert(rstd_spec(row) == r);
    lemma_root(x);
    lemma_not_below(T::spec_zero(), r);
    let g = gain[a];
    lemma_minus(row[a], row[b], m);
    lemma_times(dev[a], dev[b], g);
    lemma_times(g.times_spec(dev[a]), g.times_spec(dev[b]), r);
}

/// The activation lets positive numbers through: what comes out of one is not less than half of
/// it, and not more than it.
pub proof fn law_gelu_lets_through<T: Scalar>(v: T)
    requires
        keeps_order::<T>(),
        finite(v),
        T::spec_zero().at_most_spec(v),
        finite(half::<T>()) && T::spec_zero().at_most_spec(half::<T>()),
        finite(half::<T>().root_spec()) && T::spec_zero().at_most_spec(half::<T>().root_spec()),
        finite(half::<T>().times_spec(v)),
        half::<T>().times_spec(v).times_spec(one::<T>().plus_spec(one())).at_most_spec(v),
        finite(one::<T>().plus_spec(one())),
        ({
            let c = T::spec_count(44715).over_spec(T::spec_count(1000000));
            let t = v.times_spec(half::<T>().root_spec());
            let ct = c.times_spec(t);
            let inner = one::<T>().plus_spec(ct.times_spec(t));
            &&& finite(c) && T::spec_zero().at_most_spec(c)
            &&& finite(t) && finite(ct) && finite(inner) && finite(two::<T>().times_spec(t))
        }),
    ensures
        half::<T>().times_spec(v).at_most_spec(gelu_spec(v)),
        gelu_spec(v).at_most_spec(v),
{
    let zero = T::spec_zero();
    let f = half::<T>().root_spec();
    let c = T::spec_count(44715).over_spec(T::spec_count(1000000));
    let t = v.times_spec(f);
    let ct = c.times_spec(t);
    let ctt = ct.times_spec(t);
    let inner = one::<T>().plus_spec(ctt);
    let o = one::<T>();
    lemma_not_below(zero, o);
    lemma_not_below(v, v);
    lemma_product_not_negative(v, f);
    lemma_product_not_negative(c, t);
    lemma_product_not_negative(ct, t);
    lemma_plus(o, ctt, o);
    lemma_chain(zero, o, inner);
    lemma_positive_count::<T>(2);
    lemma_not_below(zero, two::<T>());
    lemma_product_not_negative(two::<T>(), t);
    let x = two::<T>().times_spec(t);
    lemma_product_not_negative(x, inner);
    let arg = x.times_spec(inner);
    assert(gelu_tanh(v) == arg.tanh_spec());
    let th = arg.tanh_spec();
    lemma_not_below(zero, arg);
    lemma_tanh(zero, arg);
    lemma_tanh(zero, zero);
    lemma_tanh(arg, arg);
    lemma_chain(zero, zero.tanh_spec(), th);
    lemma_between_finite(zero, th, o);
    // 1 <= 1 + th <= 1 + 1.
    let s = o.plus_spec(th);
    lemma_plus(o, th, o);
    lemma_plus(th, o, o);
    lemma_between_finite(o, s, o.plus_spec(o));
    let hv = half::<T>().times_spec(v);
    lemma_product_not_negative(half::<T>(), v);
    lemma_times(o, s, hv);
    lemma_times(s, o.plus_spec(o), hv);
    lemma_times(hv, hv, o);
    lemma_chain(hv, hv.times_spec(o), gelu_spec(v));
    lemma_chain(gelu_spec(v), hv.times_spec(o.plus_spec(o)), v);
}

/// A product of numbers that are not negative is not negative.
pub proof fn lemma_product_not_negative<T: Scalar>(a: T, b: T)
    requires
        keeps_order::<T>(),
        finite(a),
        finite(b),
        T::spec_zero().at_most_spec(a),
        T::spec_zero().at_most_spec(b),
    ensures
        T::spec_zero().at_most_spec(a.times_spec(b)),
{
    let zero = T::spec_zero();
    lemma_not_below(zero, zero);
    lemma_times(zero, a, b);
    lemma_times_naught(b, zero);
    lemma_chain(zero, zero.times_spec(b), a.times_spec(b));
}

/// Retrieval prefers the slots whose keys match better: where the inner product of one key with
/// the query is not lower than that of another, the slot gets no lower weight, for any
/// sharpness that is not negative.
pub proof fn law_retrieval_prefers_matching_slots<T: Scalar>(
    keys: Matrix<T>,
    query: Seq<T>,
    beta: T,
    a: int,
    b: int,
)
    requires
        keeps_order::<T>(),
        finite(beta),
        T::spec_zero().at_most_spec(beta),
        0 <= a < keys.rows,
        0 <= b < keys.rows,
        forall|i: int|
            0 <= i < keys.rows ==> finite(dot_spec(#[trigger] keys.row_seq(i), query)) && finite(
                beta.times_spec(dot_spec(keys.row_seq(i), query)),
            ),
        dot_spec(keys.row_seq(b), query).at_most_spec(dot_spec(keys.row_seq(a), query)),
    ensures
        softmax_spec(slot_scores(keys, query, beta))[b].at_most_spec(
            softmax_spec(slot_scores(keys, query, beta))[a],
        ),
{
    let s = slot_scores(keys, query, beta);
    let da = dot_spec(keys.row_seq(a), query);
    let db = dot_spec(keys.row_seq(b), query);
    lemma_times(db, da, beta);
    assert forall|i: int| 0 <= i < s.len() implies finite(#[trigger] s[i]) by {
        assert(finite(dot_spec(keys.row_seq(i), query)));
    }
    law_softmax_keeps_order(s);
    assert(softmax_spec(s)[b].at_most_spec(softmax_spec(s)[a]));
}

} // verus!
