//! What the backward pass hands on.

use vstd::prelude::*;
use crate::autograd::{
    back_rows, column, matrix_rows, norm_back_row, scaled_grad, softmax_back, standardized,
};
use crate::dense_laws::lemma_mirrored_parts;
use crate::exact::{
    computes_exactly, law_dot_linear, lemma_add, lemma_constant_sum, lemma_constant_sum_of_zeros,
    lemma_count_quotient, lemma_div, lemma_mul, lemma_negative_factor, lemma_opposite,
    lemma_sum_adds, lemma_sum_scales, lemma_swap,
};
use crate::kernel::lemma_plus_zero;
use crate::scalar::{dot_spec, products, sum_of, Scalar};
use crate::tensor::{lemma_row_index, Matrix};
use crate::transformer::{
    applied, gelu_deriv_spec, gelu_factor, gelu_inner, gelu_tanh, half, mean_spec, one, rstd_spec,
    two,
};

verus! {

/// The gradient that the first `n` outputs of a matrix hand to an input.
spec fn handed_back<T: Scalar>(w: Matrix<T>, d: Seq<T>, n: nat) -> Seq<T> {
    Seq::new(
        w.cols as nat,
        |j: int| sum_of(products(d, column(matrix_rows(w), j)), n),
    )
}

/// The gradient goes back through a matrix the way the input went forward: what an input adds
/// to the outputs, weighed by their gradients, is the input weighed by the gradient that comes
/// back.
pub proof fn law_back_is_adjoint<T: Scalar>(w: Matrix<T>, x: Seq<T>, d: Seq<T>)
    requires
        computes_exactly::<T>(),
        w.wf(),
        x.len() == w.cols,
        d.len() == w.rows,
    ensures
        dot_spec(applied(w, x), d) == dot_spec(x, back_rows(w, seq![d])[0]),
{
    let n = w.rows as nat;
    let back = back_rows(w, seq![d])[0];
    assert forall|j: int| 0 <= j < w.cols implies #[trigger] products(
        d,
        column(matrix_rows(w), j),
    ).len() == n by {}
    assert(back =~= handed_back(w, d, n));
    lemma_handed_back(w, x, d, n);
}

proof fn lemma_handed_back<T: Scalar>(w: Matrix<T>, x: Seq<T>, d: Seq<T>, n: nat)
    requires
        computes_exactly::<T>(),
        w.wf(),
        x.len() == w.cols,
        d.len() == w.rows,
        n <= w.rows,
    ensures
        sum_of(products(applied(w, x), d), n) == dot_spec(x, handed_back(w, d, n)),
    decreases n,
{
    let cols = w.cols as nat;
    let b = handed_back(w, d, n);
    if n == 0 {
        let p = products(x, b);
        assert forall|j: int| 0 <= j < cols implies #[trigger] p[j] == T::spec_zero() by {
            lemma_mul(x[j], x[j], x[j]);
        }
        lemma_constant_sum_of_zeros(p, cols);
    } else {
        let m = (n - 1) as nat;
        lemma_handed_back(w, x, d, m);
        let a = handed_back(w, d, m);
        let row = w.row_seq(m as int);
        let more = Seq::new(cols, |j: int| d[m as int].times_spec(row[j]));
        let i = m as int;
        assert(w.data@.len() == w.rows * w.cols);
        lemma_row_index(w.rows as int, w.cols as int, i);
        assert(row.len() == cols);
        assert forall|j: int| 0 <= j < cols implies #[trigger] b[j] == a[j].plus_spec(more[j]) by {
            assert(column(matrix_rows(w), j)[i] == row[j]);
        }
        law_dot_linear(x, a, more, d[i]);
        law_dot_linear(x, row, row, d[i]);
        assert(b =~= Seq::new(cols, |j: int| a[j].plus_spec(more[j])));
        assert(more =~= Seq::new(cols, |j: int| d[i].times_spec(row[j])));
        assert(applied(w, x)[i] == dot_spec(x, row));
        lemma_swap(dot_spec(x, row), d[i]);
    }
}

/// Softmax keeps the sum of the weights, so the gradients of its scores add up to nothing.
pub proof fn law_softmax_gradient_balanced<T: Scalar>(p: Seq<T>, dp: Seq<T>)
    requires
        computes_exactly::<T>(),
        p.len() == dp.len(),
        sum_of(p, p.len()) == one::<T>(),
    ensures
        sum_of(softmax_back(p, dp), p.len()) == T::spec_zero(),
{
    let n = p.len();
    let zero = T::spec_zero();
    let q = products(p, dp);
    let s = sum_of(q, n);
    let ns = zero.minus_spec(s);
    let rest = Seq::new(n, |j: int| ns.times_spec(p[j]));
    let back = softmax_back(p, dp);
    assert forall|j: int| 0 <= j < n implies #[trigger] back[j] == q[j].plus_spec(rest[j]) by {
        lemma_add(dp[j], s, s);
        lemma_mul(p[j], dp[j], ns);
        lemma_swap(p[j], ns);
    }
    lemma_sum_adds(q, rest, back, n);
    lemma_sum_scales(ns, p, rest, n);
    lemma_swap(ns, one::<T>());
    lemma_div(ns, ns, 0);
    lemma_opposite(s, ns);
}

/// Differences to the mean add up to nothing.
proof fn lemma_centred<T: Scalar>(s: Seq<T>, u: Seq<T>, m: T)
    requires
        computes_exactly::<T>(),
        0 < s.len() <= usize::MAX,
        u.len() == s.len(),
        m == sum_of(s, s.len()).over_spec(T::spec_count(s.len() as usize)),
        forall|i: int| 0 <= i < s.len() ==> #[trigger] u[i] == s[i].minus_spec(m),
    ensures
        sum_of(u, u.len()) == T::spec_zero(),
{
    let n = s.len();
    let zero = T::spec_zero();
    let k = T::spec_count(n as usize);
    let nm = zero.minus_spec(m);
    let cs = Seq::new(n, |i: int| nm);
    assert forall|i: int| 0 <= i < n implies #[trigger] u[i] == s[i].plus_spec(cs[i]) by {
        lemma_add(s[i], m, m);
    }
    lemma_sum_adds(s, cs, u, n);
    lemma_constant_sum(cs, nm, n);
    lemma_negative_factor(k, m);
    lemma_count_quotient(sum_of(s, n), n as usize);
    lemma_swap(k, m);
    lemma_opposite(sum_of(s, n), zero);
}

/// Normalisation ignores what is added to a whole row, so the gradients that it hands back to a
/// row add up to nothing.
pub proof fn law_norm_gradient_balanced<T: Scalar>(row: Seq<T>, dy: Seq<T>, gain: Seq<T>)
    requires
        computes_exactly::<T>(),
        0 < row.len() <= usize::MAX,
        dy.len() == row.len(),
        gain.len() == row.len(),
    ensures
        sum_of(norm_back_row(row, dy, gain), row.len()) == T::spec_zero(),
{
    let len = row.len();
    let zero = T::spec_zero();
    let xn = standardized(row);
    let g = scaled_grad(dy, gain);
    let n = T::spec_count(len as usize);
    let m1 = sum_of(g, g.len()).over_spec(n);
    let m2 = sum_of(products(g, xn), len).over_spec(n);
    let r = rstd_spec(row);
    // The standardised row.
    let dev = Seq::new(len, |j: int| row[j].minus_spec(mean_spec(row)));
    lemma_centred(row, dev, mean_spec(row));
    assert forall|j: int| 0 <= j < len implies #[trigger] xn[j] == r.times_spec(dev[j]) by {
        lemma_swap(dev[j], r);
    }
    lemma_sum_scales(r, dev, xn, len);
    lemma_mul(r, r, r);
    // The two parts of the gradient.
    let u = Seq::new(len, |j: int| g[j].minus_spec(m1));
    lemma_centred(g, u, m1);
    let nm = zero.minus_spec(m2);
    let v = Seq::new(len, |j: int| nm.times_spec(xn[j]));
    lemma_sum_scales(nm, xn, v, len);
    lemma_mul(nm, nm, nm);
    let t = Seq::new(len, |j: int| u[j].plus_spec(v[j]));
    lemma_sum_adds(u, v, t, len);
    lemma_plus_zero(zero);
    let back = norm_back_row(row, dy, gain);
    assert forall|j: int| 0 <= j < len implies #[trigger] back[j] == r.times_spec(t[j]) by {
        let y = xn[j].times_spec(m2);
        lemma_add(u[j], y, y);
        lemma_negative_factor(xn[j], m2);
        lemma_swap(xn[j], nm);
    }
    lemma_sum_scales(r, t, back, len);
}

/// The slopes of the activation at a number and at the number with the other sign make up one.
pub proof fn law_gelu_slopes<T: Scalar>(v: T)
    requires
        computes_exactly::<T>(),
        forall|x: T|
            (#[trigger] T::spec_zero().minus_spec(x).tanh_spec()) == T::spec_zero().minus_spec(
                x.tanh_spec(),
            ),
        half::<T>().plus_spec(half()) == one::<T>(),
    ensures
        gelu_deriv_spec(v).plus_spec(gelu_deriv_spec(T::spec_zero().minus_spec(v))) == one::<T>(),
{
    let zero = T::spec_zero();
    let o = one::<T>();
    let h = half::<T>();
    let nv = zero.minus_spec(v);
    let th = gelu_tanh(v);
    let nth = zero.minus_spec(th);
    lemma_mirrored_parts(v);
    lemma_negative_factor(nth, th);
    lemma_negative_factor(th, th);
    lemma_negative_factor(th.times_spec(th), th);
    let s = o.minus_spec(th.times_spec(th));
    assert(nth.times_spec(nth) == th.times_spec(th));
    // The second part changes its sign.
    let f = gelu_factor::<T>();
    let inner = gelu_inner(v);
    let a0 = h.times_spec(v);
    let a1 = a0.times_spec(s);
    let a2 = a1.times_spec(f);
    let a3 = a2.times_spec(two::<T>());
    let x = a3.times_spec(inner);
    lemma_negative_factor(h, v);
    lemma_negative_factor(s, a0);
    lemma_negative_factor(f, a1);
    lemma_negative_factor(two::<T>(), a2);
    lemma_negative_factor(inner, a3);
    let nx = zero.minus_spec(x);
    let b = h.times_spec(o.plus_spec(th));
    let c = h.times_spec(o.plus_spec(nth));
    assert(gelu_deriv_spec(v) == b.plus_spec(x));
    assert(gelu_deriv_spec(nv) == c.plus_spec(nx));
    // (b + x) + (c - x) = b + c.
    lemma_opposite(x, nx);
    lemma_add(b, x, c.plus_spec(nx));
    lemma_add(x, c, nx);
    lemma_add(c, x, nx);
    lemma_plus_zero(c);
    lemma_add(c, zero, zero);
    // The first parts make up one.
    lemma_mul(h, o.plus_spec(th), o.plus_spec(nth));
    lemma_add(o, th, o.plus_spec(nth));
    lemma_add(th, o, nth);
    lemma_add(o, th, nth);
    lemma_opposite(th, nth);
    lemma_plus_zero(o);
    lemma_add(o, zero, zero);
    assert(o.plus_spec(th).plus_spec(o.plus_spec(nth)) == o.plus_spec(o));
    lemma_mul(h, o, o);
    lemma_swap(h, o);
    lemma_div(h, h, 0);
}

} // verus!
