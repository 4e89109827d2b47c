//! What holds of the operations where arithmetic is exact, as it is of the numbers that floats
//! stand for.

use vstd::prelude::*;
use crate::kernel::{adds_exactly, lemma_plus_zero};
use crate::order::{finite, keeps_order, lemma_sum_bounds};
use crate::reconstruction::multiplies_exactly;
use crate::scalar::{dot_spec, products, squared_differences, squared_dist_spec, sum_of, Scalar};
use crate::transformer::one;

verus! {

/// Whether products do not depend on the order of their factors.
#[verifier::opaque]
pub open spec fn factors_swap<T: Scalar>() -> bool {
    forall|a: T, b: T| #[trigger] a.times_spec(b) == b.times_spec(a)
}

/// Whether differences, quotients and counts are exact too: what is taken away can be put
/// back, a quotient by a number that is not zero gives the number back when it is multiplied
/// with, and counts are sums of ones.
#[verifier::opaque]
pub open spec fn divides_exactly<T: Scalar>() -> bool {
    &&& forall|a: T| #[trigger] a.minus_spec(a) == T::spec_zero()
    &&& forall|a: T| #[trigger] a.negated_spec() == T::spec_zero().minus_spec(a)
    &&& forall|a: T| #[trigger] one::<T>().times_spec(a) == a
    &&& forall|a: T, b: T| #[trigger] a.over_spec(b) == a.times_spec(one::<T>().over_spec(b))
    &&& forall|n: usize|
        n > 0 ==> T::spec_count(n).times_spec(#[trigger] one::<T>().over_spec(T::spec_count(n)))
            == one::<T>()
    &&& forall|n: usize|
        n < usize::MAX ==> #[trigger] T::spec_count((n + 1) as usize) == T::spec_count(
            n,
        ).plus_spec(one())
    &&& T::spec_count(0) == T::spec_zero()
}

/// Whether arithmetic is exact.
pub open spec fn computes_exactly<T: Scalar>() -> bool {
    &&& adds_exactly::<T>()
    &&& multiplies_exactly::<T>()
    &&& factors_swap::<T>()
    &&& divides_exactly::<T>()
}

/// Factors can be swapped.
pub proof fn lemma_swap<T: Scalar>(a: T, b: T)
    requires
        factors_swap::<T>(),
    ensures
        a.times_spec(b) == b.times_spec(a),
{
    reveal(factors_swap);
}

/// Summands can be swapped and grouped.
pub proof fn lemma_add<T: Scalar>(a: T, b: T, c: T)
    requires
        adds_exactly::<T>(),
    ensures
        a.plus_spec(b) == b.plus_spec(a),
        a.plus_spec(b).plus_spec(c) == a.plus_spec(b.plus_spec(c)),
        a.minus_spec(b) == a.plus_spec(T::spec_zero().minus_spec(b)),
{
    reveal(adds_exactly);
}

/// Products distribute over sums.
pub proof fn lemma_mul<T: Scalar>(a: T, b: T, c: T)
    requires
        multiplies_exactly::<T>(),
    ensures
        a.times_spec(b).times_spec(c) == a.times_spec(b.times_spec(c)),
        a.times_spec(b.plus_spec(c)) == a.times_spec(b).plus_spec(a.times_spec(c)),
        a.times_spec(T::spec_zero()) == T::spec_zero(),
{
    reveal(multiplies_exactly);
}

/// Differences, quotients and counts.
pub proof fn lemma_div<T: Scalar>(a: T, b: T, n: usize)
    requires
        divides_exactly::<T>(),
    ensures
        a.minus_spec(a) == T::spec_zero(),
        a.negated_spec() == T::spec_zero().minus_spec(a),
        one::<T>().times_spec(a) == a,
        a.over_spec(b) == a.times_spec(one::<T>().over_spec(b)),
        n > 0 ==> T::spec_count(n).times_spec(one::<T>().over_spec(T::spec_count(n)))
            == one::<T>(),
        n < usize::MAX ==> T::spec_count((n + 1) as usize) == T::spec_count(n).plus_spec(one()),
        T::spec_count(0) == T::spec_zero(),
{
    reveal(divides_exactly);
}

/// Sums of equal terms are equal.
pub proof fn lemma_same_sum<T: Scalar>(s: Seq<T>, t: Seq<T>, n: nat)
    requires
        n <= s.len(),
        n <= t.len(),
        forall|i: int| 0 <= i < n ==> s[i] == t[i],
    ensures
        sum_of(s, n) == sum_of(t, n),
    decreases n,
{
    if n > 0 {
        lemma_same_sum(s, t, (n - 1) as nat);
    }
}

/// What is added to a number to give zero is its negative.
pub proof fn lemma_opposite<T: Scalar>(a: T, b: T)
    requires
        adds_exactly::<T>(),
        divides_exactly::<T>(),
    ensures
        a.plus_spec(T::spec_zero().minus_spec(a)) == T::spec_zero(),
        a.plus_spec(b) == T::spec_zero() ==> b == T::spec_zero().minus_spec(a),
{
    let zero = T::spec_zero();
    let na = zero.minus_spec(a);
    lemma_div(a, a, 0);
    lemma_add(a, a, a);
    if a.plus_spec(b) == zero {
        lemma_add(na, a, b);
        lemma_add(a, na, b);
        lemma_plus_zero(na);
        lemma_plus_zero(b);
        lemma_add(na, zero, zero);
    }
}

/// The same number added to both sides leaves a difference as it is.
pub proof fn lemma_shifted_difference<T: Scalar>(a: T, b: T, c: T)
    requires
        adds_exactly::<T>(),
        divides_exactly::<T>(),
    ensures
        a.plus_spec(c).minus_spec(b.plus_spec(c)) == a.minus_spec(b),
{
    let zero = T::spec_zero();
    let (nb, nc) = (zero.minus_spec(b), zero.minus_spec(c));
    let bc = b.plus_spec(c);
    lemma_opposite(b, nb);
    lemma_opposite(c, nc);
    // (b + c) + (-c + -b) is zero.
    lemma_add(b, c, nc.plus_spec(nb));
    lemma_add(c, nc, nb);
    lemma_plus_zero(nb);
    lemma_opposite(bc, nc.plus_spec(nb));
    lemma_add(a.plus_spec(c), bc, bc);
    lemma_add(a, c, nc.plus_spec(nb));
    lemma_add(a, b, b);
}

/// The negative of a product.
pub proof fn lemma_negative_factor<T: Scalar>(a: T, b: T)
    requires
        computes_exactly::<T>(),
    ensures
        a.times_spec(T::spec_zero().minus_spec(b)) == T::spec_zero().minus_spec(a.times_spec(b)),
        T::spec_zero().minus_spec(b).times_spec(a) == T::spec_zero().minus_spec(b.times_spec(a)),
        T::spec_zero().minus_spec(T::spec_zero().minus_spec(a)) == a,
{
    let zero = T::spec_zero();
    let nb = zero.minus_spec(b);
    lemma_mul(a, b, nb);
    lemma_opposite(b, nb);
    lemma_opposite(a.times_spec(b), a.times_spec(nb));
    lemma_swap(a, nb);
    lemma_swap(a, b);
    let na = zero.minus_spec(a);
    lemma_opposite(a, na);
    lemma_add(a, na, na);
    lemma_opposite(na, a);
}

/// A quotient multiplied with what it was divided by.
pub proof fn lemma_count_quotient<T: Scalar>(a: T, n: usize)
    requires
        computes_exactly::<T>(),
        n > 0,
    ensures
        a.over_spec(T::spec_count(n)).times_spec(T::spec_count(n)) == a,
        a.times_spec(T::spec_count(n)).over_spec(T::spec_count(n)) == a,
        T::spec_count(n).times_spec(a).over_spec(T::spec_count(n)) == a,
{
    let c = T::spec_count(n);
    let inv = one::<T>().over_spec(c);
    lemma_div(a, c, n);
    lemma_div(a.times_spec(c), c, n);
    lemma_div(c.times_spec(a), c, n);
    lemma_swap(c, inv);
    lemma_mul(a, inv, c);
    lemma_mul(a, c, inv);
    lemma_swap(a, one::<T>());
    lemma_swap(c, a);
}

/// Quotients of sums.
pub proof fn lemma_sum_quotient<T: Scalar>(a: T, b: T, c: T)
    requires
        computes_exactly::<T>(),
    ensures
        a.plus_spec(b).over_spec(c) == a.over_spec(c).plus_spec(b.over_spec(c)),
{
    let inv = one::<T>().over_spec(c);
    lemma_div(a, c, 0);
    lemma_div(b, c, 0);
    lemma_div(a.plus_spec(b), c, 0);
    lemma_swap(a.plus_spec(b), inv);
    lemma_mul(inv, a, b);
    lemma_swap(a, inv);
    lemma_swap(b, inv);
}

/// The sum of `n` times the same number.
pub proof fn lemma_constant_sum<T: Scalar>(s: Seq<T>, c: T, n: nat)
    requires
        computes_exactly::<T>(),
        n <= s.len(),
        n <= usize::MAX,
        forall|i: int| 0 <= i < n ==> #[trigger] s[i] == c,
    ensures
        sum_of(s, n) == T::spec_count(n as usize).times_spec(c),
    decreases n,
{
    lemma_div(c, c, 0);
    lemma_swap(T::spec_zero(), c);
    lemma_mul(c, c, c);
    if n > 0 {
        let m = (n - 1) as usize;
        lemma_constant_sum(s, c, m as nat);
        assert(s[n - 1] == c);
        lemma_div(c, c, m);
        let k = T::spec_count(m);
        lemma_swap(k.plus_spec(one()), c);
        lemma_mul(c, k, one());
        lemma_swap(c, k);
        lemma_swap(c, one::<T>());
    }
}

/// The inner product does not depend on the order of its factors.
pub proof fn law_dot_symmetric<T: Scalar>(a: Seq<T>, b: Seq<T>)
    requires
        factors_swap::<T>(),
    ensures
        dot_spec(a, b) == dot_spec(b, a),
{
    let p = products(a, b);
    let q = products(b, a);
    assert forall|i: int| 0 <= i < p.len() implies p[i] == q[i] by {
        lemma_swap(a[i], b[i]);
    }
    lemma_same_sum(p, q, p.len());
}

/// Sums add up term by term.
pub proof fn lemma_sum_adds<T: Scalar>(s: Seq<T>, t: Seq<T>, u: Seq<T>, n: nat)
    requires
        adds_exactly::<T>(),
        n <= s.len(),
        n <= t.len(),
        n <= u.len(),
        forall|i: int| 0 <= i < n ==> #[trigger] u[i] == s[i].plus_spec(t[i]),
    ensures
        sum_of(u, n) == sum_of(s, n).plus_spec(sum_of(t, n)),
    decreases n,
{
    if n == 0 {
        lemma_plus_zero(T::spec_zero());
    } else {
        let m = (n - 1) as nat;
        lemma_sum_adds(s, t, u, m);
        let (a, b, x, y) = (sum_of(s, m), sum_of(t, m), s[n - 1], t[n - 1]);
        assert(u[n - 1] == x.plus_spec(y));
        lemma_add(a, b, x.plus_spec(y));
        lemma_add(b, x, y);
        lemma_add(x, b, y);
        lemma_add(a, x, b.plus_spec(y));
    }
}

/// A factor of all terms is a factor of the sum.
pub proof fn lemma_sum_scales<T: Scalar>(f: T, s: Seq<T>, u: Seq<T>, n: nat)
    requires
        multiplies_exactly::<T>(),
        n <= s.len(),
        n <= u.len(),
        forall|i: int| 0 <= i < n ==> #[trigger] u[i] == f.times_spec(s[i]),
    ensures
        sum_of(u, n) == f.times_spec(sum_of(s, n)),
    decreases n,
{
    if n == 0 {
        lemma_mul(f, f, f);
    } else {
        lemma_sum_scales(f, s, u, (n - 1) as nat);
        lemma_mul(f, sum_of(s, (n - 1) as nat), s[n - 1]);
        assert(u[n - 1] == f.times_spec(s[n - 1]));
    }
}

/// The inner product is linear: it takes sums to sums and multiples to multiples.
pub proof fn law_dot_linear<T: Scalar>(w: Seq<T>, a: Seq<T>, b: Seq<T>, f: T)
    requires
        computes_exactly::<T>(),
        a.len() == w.len(),
        b.len() == w.len(),
    ensures
        dot_spec(w, Seq::new(w.len(), |i: int| a[i].plus_spec(b[i]))) == dot_spec(w, a).plus_spec(
            dot_spec(w, b),
        ),
        dot_spec(w, Seq::new(w.len(), |i: int| f.times_spec(a[i]))) == f.times_spec(dot_spec(w, a)),
{
    let n = w.len();
    let sum = Seq::new(n, |i: int| a[i].plus_spec(b[i]));
    let many = Seq::new(n, |i: int| f.times_spec(a[i]));
    let (p, q, r) = (products(w, a), products(w, b), products(w, sum));
    assert forall|i: int| 0 <= i < n implies #[trigger] r[i] == p[i].plus_spec(q[i]) by {
        lemma_mul(w[i], a[i], b[i]);
    }
    lemma_sum_adds(p, q, r, n);
    let m = products(w, many);
    assert forall|i: int| 0 <= i < n implies #[trigger] m[i] == f.times_spec(p[i]) by {
        lemma_swap(w[i], f.times_spec(a[i]));
        lemma_mul(f, a[i], w[i]);
        lemma_swap(a[i], w[i]);
    }
    lemma_sum_scales(f, p, m, n);
    assert(p.len() == n && q.len() == n && r.len() == n && m.len() == n);
}

/// The vector with a one at place `k` and zeros elsewhere.
pub open spec fn unit_vector<T: Scalar>(n: nat, k: int) -> Seq<T> {
    Seq::new(
        n,
        |i: int|
            if i == k {
                one::<T>()
            } else {
                T::spec_zero()
            },
    )
}

/// A sum in which all terms but one are zero is that term.
pub proof fn lemma_single_term<T: Scalar>(s: Seq<T>, k: int, n: nat)
    requires
        adds_exactly::<T>(),
        n <= s.len(),
        0 <= k < s.len(),
        forall|i: int| 0 <= i < n && i != k ==> #[trigger] s[i] == T::spec_zero(),
    ensures
        sum_of(s, n) == if k < n {
            s[k]
        } else {
            T::spec_zero()
        },
    decreases n,
{
    if n > 0 {
        lemma_single_term(s, k, (n - 1) as nat);
        lemma_plus_zero(s[n - 1]);
        lemma_plus_zero(s[k]);
    }
}

/// The inner product with a unit vector picks the number at its place.
pub proof fn law_dot_picks<T: Scalar>(a: Seq<T>, k: int)
    requires
        computes_exactly::<T>(),
        0 <= k < a.len(),
    ensures
        dot_spec(a, unit_vector(a.len(), k)) == a[k],
        dot_spec(unit_vector(a.len(), k), a) == a[k],
{
    let e = unit_vector::<T>(a.len(), k);
    let p = products(a, e);
    assert forall|i: int| 0 <= i < a.len() && i != k implies #[trigger] p[i] == T::spec_zero() by {
        lemma_mul(a[i], a[i], a[i]);
    }
    lemma_div(a[k], a[k], 1);
    lemma_swap(a[k], one::<T>());
    lemma_single_term(p, k, a.len());
    assert(p.len() == a.len());
    law_dot_symmetric(a, e);
}

/// The inner product of a vector with itself is positive unless the vector is zero: none of the
/// squares can make up for another.
pub proof fn law_dot_with_itself<T: Scalar>(a: Seq<T>)
    requires
        keeps_order::<T>(),
        forall|x: T|
            finite(x) ==> T::spec_zero().at_most_spec(#[trigger] x.times_spec(x)),
        forall|i: int| 0 <= i < a.len() ==> finite(#[trigger] a[i]),
    ensures
        T::spec_zero().at_most_spec(dot_spec(a, a)),
        forall|i: int|
            0 <= i < a.len() ==> (#[trigger] a[i]).times_spec(a[i]).at_most_spec(dot_spec(a, a)),
{
    let p = products(a, a);
    assert forall|i: int| 0 <= i < p.len() implies T::spec_zero().at_most_spec(#[trigger] p[i]) by {
        assert(finite(a[i]));
    }
    lemma_sum_bounds(p, p.len());
    assert forall|i: int| 0 <= i < a.len() implies (#[trigger] a[i]).times_spec(
        a[i],
    ).at_most_spec(dot_spec(a, a)) by {
        assert(p[i].at_most_spec(sum_of(p, p.len())));
    }
}

/// The squared distance of two rows, twice their inner product and the squares of their lengths
/// belong together as in a triangle. A row has no distance to itself.
pub proof fn law_squared_distance<T: Scalar>(a: Seq<T>, b: Seq<T>)
    requires
        computes_exactly::<T>(),
        a.len() == b.len(),
    ensures
        squared_dist_spec(a, b).plus_spec(dot_spec(a, b).plus_spec(dot_spec(a, b))) == dot_spec(
            a,
            a,
        ).plus_spec(dot_spec(b, b)),
        squared_dist_spec(a, a) == T::spec_zero(),
{
    let n = a.len();
    let zero = T::spec_zero();
    let d = squared_differences(a, b);
    let (p, x, y) = (products(a, b), products(a, a), products(b, b));
    let twice = Seq::new(n, |i: int| p[i].plus_spec(p[i]));
    let left = Seq::new(n, |i: int| d[i].plus_spec(twice[i]));
    let right = Seq::new(n, |i: int| x[i].plus_spec(y[i]));
    assert forall|i: int| 0 <= i < n implies left[i] == right[i] by {
        lemma_square_of_difference(a[i], b[i]);
    }
    lemma_sum_adds(p, p, twice, n);
    lemma_sum_adds(d, twice, left, n);
    lemma_sum_adds(x, y, right, n);
    lemma_same_sum(left, right, n);
    let e = squared_differences(a, a);
    assert forall|i: int| 0 <= i < n implies #[trigger] e[i] == zero by {
        lemma_div(a[i], a[i], 0);
        lemma_mul(zero, zero, zero);
    }
    lemma_constant_sum_of_zeros(e, n);
}

/// The square of a difference.
proof fn lemma_square_of_difference<T: Scalar>(a: T, b: T)
    requires
        computes_exactly::<T>(),
    ensures
        ({
            let d = a.minus_spec(b);
            let p = a.times_spec(b);
            d.times_spec(d).plus_spec(p.plus_spec(p)) == a.times_spec(a).plus_spec(b.times_spec(b))
        }),
{
    let zero = T::spec_zero();
    let nb = zero.minus_spec(b);
    let d = a.minus_spec(b);
    let p = a.times_spec(b);
    let np = zero.minus_spec(p);
    let (aa, bb) = (a.times_spec(a), b.times_spec(b));
    lemma_add(a, b, b);
    assert(d == a.plus_spec(nb));
    // d d = (d a) + (d -b), and each is two products.
    lemma_mul(d, a, nb);
    lemma_swap(d, a);
    lemma_mul(a, a, nb);
    lemma_negative_factor(a, b);
    lemma_swap(d, nb);
    lemma_mul(nb, a, nb);
    lemma_negative_factor(a, b);
    lemma_negative_factor(nb, b);
    lemma_negative_factor(b, b);
    lemma_swap(b, a);
    lemma_swap(nb, a);
    lemma_negative_factor(bb, bb);
    assert(d.times_spec(a) == aa.plus_spec(np));
    assert(d.times_spec(nb) == np.plus_spec(bb));
    // (aa - p) + (bb - p) + (p + p) = aa + bb.
    lemma_opposite(p, np);
    let u = aa.plus_spec(np);
    let v = np.plus_spec(bb);
    lemma_add(np, bb, p);
    lemma_add(bb, np, p);
    lemma_add(np, p, zero);
    lemma_plus_zero(bb);
    assert(v.plus_spec(p) == bb);
    lemma_add(aa, np, p);
    lemma_plus_zero(aa);
    assert(u.plus_spec(p) == aa);
    lemma_add(u, v, p.plus_spec(p));
    lemma_add(v, p, p);
    lemma_add(bb, p, p);
    lemma_add(u, p, bb);
    assert(u.plus_spec(v).plus_spec(p.plus_spec(p)) == u.plus_spec(bb.plus_spec(p)));
}

/// Zeros add up to zero.
pub proof fn lemma_constant_sum_of_zeros<T: Scalar>(s: Seq<T>, n: nat)
    requires
        computes_exactly::<T>(),
        n <= s.len(),
        forall|i: int| 0 <= i < n ==> #[trigger] s[i] == T::spec_zero(),
    ensures
        sum_of(s, n) == T::spec_zero(),
    decreases n,
{
    if n > 0 {
        lemma_constant_sum_of_zeros(s, (n - 1) as nat);
        lemma_plus_zero(T::spec_zero());
    }
}

/// Counts of a sum are sums of counts.
pub proof fn lemma_count_adds<T: Scalar>(a: usize, b: usize)
    requires
        computes_exactly::<T>(),
        a + b <= usize::MAX,
    ensures
        T::spec_count((a + b) as usize) == T::spec_count(a).plus_spec(T::spec_count(b)),
    decreases b,
{
    lemma_div(one::<T>(), one::<T>(), 0);
    if b == 0 {
        lemma_plus_zero(T::spec_count(a));
    } else {
        let c = (b - 1) as usize;
        lemma_count_adds::<T>(a, c);
        lemma_div(one::<T>(), one::<T>(), (a + c) as usize);
        lemma_div(one::<T>(), one::<T>(), c);
        lemma_add(T::spec_count(a), T::spec_count(c), one::<T>());
    }
}

} // verus!
