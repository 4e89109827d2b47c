//! What is asked of numbers so that results can be compared: that each operation keeps the
//! order of its operands.
//!
//! Floats are like that, since rounding keeps the order. The statements leave out what does
//! not: NaN, which no comparison holds of, and infinite operands where they lead to it.

use vstd::prelude::*;
use crate::scalar::{sum_of, Scalar};
use crate::transformer::one;

verus! {

/// Whether a number lies between the lowest and the highest one.
pub open spec fn finite<T: Scalar>(x: T) -> bool {
    T::spec_lowest().below_spec(x) && x.below_spec(T::spec_highest())
}

/// Whether `x` counts as zero.
pub open spec fn naught<T: Scalar>(x: T) -> bool {
    x.at_most_spec(T::spec_zero()) && T::spec_zero().at_most_spec(x)
}

/// Whether `x` counts as one.
pub open spec fn unity<T: Scalar>(x: T) -> bool {
    x.at_most_spec(one()) && one::<T>().at_most_spec(x)
}

/// Whether comparisons fit together, and counts are in order.
#[verifier::opaque]
pub open spec fn compares<T: Scalar>() -> bool {
    &&& forall|a: T, b: T, c: T| #[trigger]
        a.at_most_spec(b) && #[trigger] b.at_most_spec(c) ==> a.at_most_spec(c)
    &&& forall|a: T, b: T| #[trigger]
        a.at_most_spec(b) ==> a.at_most_spec(a) && b.at_most_spec(b)
    &&& forall|a: T, b: T|
        a.at_most_spec(a) && b.at_most_spec(b) ==> #[trigger] a.at_most_spec(b) || b.at_most_spec(a)
    &&& forall|a: T, b: T| #[trigger]
        a.below_spec(b) <==> a.at_most_spec(b) && !b.at_most_spec(a)
    &&& forall|n: usize| finite(#[trigger] T::spec_count(n))
    &&& forall|m: usize, n: usize|
        m <= n ==> #[trigger] T::spec_count(m).at_most_spec(#[trigger] T::spec_count(n))
    &&& naught(T::spec_count(0))
    &&& T::spec_zero().below_spec(one())
    &&& finite(T::spec_zero())
}

/// Whether sums and differences keep the order.
#[verifier::opaque]
pub open spec fn adds_in_order<T: Scalar>() -> bool {
    &&& forall|a: T, b: T, c: T|
        a.at_most_spec(b) && finite(c) ==> #[trigger] a.plus_spec(c).at_most_spec(
            #[trigger] b.plus_spec(c),
        )
    &&& forall|a: T, b: T, c: T|
        a.at_most_spec(b) && finite(c) ==> #[trigger] c.plus_spec(a).at_most_spec(
            #[trigger] c.plus_spec(b),
        )
    &&& forall|a: T, b: T, c: T|
        a.at_most_spec(b) && finite(c) ==> #[trigger] a.minus_spec(c).at_most_spec(
            #[trigger] b.minus_spec(c),
        )
    &&& forall|a: T, b: T, c: T|
        a.at_most_spec(b) && finite(c) ==> #[trigger] c.minus_spec(b).at_most_spec(
            #[trigger] c.minus_spec(a),
        )
    &&& forall|a: T| finite(a) ==> naught(#[trigger] a.minus_spec(a))
    &&& forall|a: T, b: T|
        T::spec_zero().at_most_spec(a) && T::spec_zero().at_most_spec(b) ==> a.at_most_spec(
            #[trigger] a.plus_spec(b),
        ) && b.at_most_spec(a.plus_spec(b))
    &&& forall|a: T, b: T|
        a.at_most_spec(b) ==> (#[trigger] b.negated_spec()).at_most_spec(
            #[trigger] a.negated_spec(),
        )
    &&& naught(T::spec_zero().negated_spec())
    &&& forall|a: T| finite(a) ==> finite(#[trigger] a.negated_spec())
    &&& forall|a: T, b: T|
        finite(a) && naught(b) ==> #[trigger] a.plus_spec(b).at_most_spec(a) && a.at_most_spec(
            a.plus_spec(b),
        )
    &&& forall|a: T, b: T|
        finite(a) && naught(b) ==> #[trigger] a.minus_spec(b).at_most_spec(a) && a.at_most_spec(
            a.minus_spec(b),
        )
}

/// Whether products with and quotients by numbers that are not negative keep the order.
#[verifier::opaque]
pub open spec fn multiplies_in_order<T: Scalar>() -> bool {
    &&& forall|a: T, b: T, s: T|
        a.at_most_spec(b) && finite(a) && finite(b) && finite(s) && T::spec_zero().at_most_spec(s)
            ==> #[trigger] a.times_spec(s).at_most_spec(#[trigger] b.times_spec(s))
    &&& forall|a: T, b: T, s: T|
        a.at_most_spec(b) && finite(a) && finite(b) && finite(s) && T::spec_zero().at_most_spec(s)
            ==> #[trigger] s.times_spec(a).at_most_spec(#[trigger] s.times_spec(b))
    &&& forall|a: T, s: T| finite(a) && naught(s) ==> naught(#[trigger] a.times_spec(s))
    &&& forall|a: T, s: T| finite(a) && naught(s) ==> naught(#[trigger] s.times_spec(a))
    &&& forall|a: T, s: T|
        finite(a) && unity(s) ==> #[trigger] a.times_spec(s).at_most_spec(a) && a.at_most_spec(
            a.times_spec(s),
        )
    &&& forall|a: T, b: T, s: T|
        a.at_most_spec(b) && finite(a) && finite(b) && finite(s) && T::spec_zero().below_spec(s)
            ==> #[trigger] a.over_spec(s).at_most_spec(#[trigger] b.over_spec(s))
    &&& forall|a: T, s: T|
        naught(a) && T::spec_zero().below_spec(s) ==> naught(#[trigger] a.over_spec(s))
    &&& forall|s: T|
        finite(s) && T::spec_zero().below_spec(s) ==> unity(#[trigger] s.over_spec(s))
    &&& forall|x: T|
        one::<T>().at_most_spec(x) ==> T::spec_zero().at_most_spec(
            #[trigger] one::<T>().over_spec(x),
        ) && one::<T>().over_spec(x).at_most_spec(one())
}

/// Whether roots, exponentials, logarithms and the hyperbolic tangent keep the order and have
/// their known values and bounds.
#[verifier::opaque]
pub open spec fn grows_in_order<T: Scalar>() -> bool {
    &&& forall|x: T|
        T::spec_zero().below_spec(x) && finite(x) ==> finite(
            one::<T>().over_spec(#[trigger] x.root_spec()),
        ) && T::spec_zero().below_spec(one::<T>().over_spec(x.root_spec()))
    &&& forall|a: T, b: T|
        a.at_most_spec(b) ==> (#[trigger] a.exp_spec()).at_most_spec(#[trigger] b.exp_spec())
    &&& forall|a: T| a.at_most_spec(a) ==> T::spec_zero().at_most_spec(#[trigger] a.exp_spec())
    &&& forall|a: T| naught(a) ==> unity(#[trigger] a.exp_spec())
    &&& forall|a: T, b: T|
        T::spec_zero().below_spec(a) && a.at_most_spec(b) ==> (#[trigger] a.ln_spec()).at_most_spec(
            #[trigger] b.ln_spec(),
        )
    &&& forall|a: T| unity(a) ==> naught(#[trigger] a.ln_spec())
    &&& forall|a: T, b: T|
        a.at_most_spec(b) ==> (#[trigger] a.tanh_spec()).at_most_spec(#[trigger] b.tanh_spec())
    &&& forall|a: T|
        a.at_most_spec(a) ==> (#[trigger] a.tanh_spec()).at_most_spec(one()) && one::<
            T,
        >().negated_spec().at_most_spec(a.tanh_spec())
    &&& forall|a: T| naught(a) ==> naught(#[trigger] a.tanh_spec())
}

/// Whether all operations keep the order.
pub open spec fn keeps_order<T: Scalar>() -> bool {
    compares::<T>() && adds_in_order::<T>() && multiplies_in_order::<T>() && grows_in_order::<T>()
}

/// From one number to the next that is not less.
pub proof fn lemma_chain<T: Scalar>(a: T, b: T, c: T)
    requires
        compares::<T>(),
        a.at_most_spec(b),
        b.at_most_spec(c),
    ensures
        a.at_most_spec(c),
{
    reveal(compares);
}

/// A number that is not less than another is not below it.
pub proof fn lemma_not_below<T: Scalar>(a: T, b: T)
    requires
        compares::<T>(),
    ensures
        a.at_most_spec(b) ==> !b.below_spec(a) && a.at_most_spec(a) && b.at_most_spec(b),
        a.below_spec(b) ==> a.at_most_spec(b),
        a.at_most_spec(a) && b.at_most_spec(b) && !b.below_spec(a) ==> a.at_most_spec(b),
        finite(a) ==> a.at_most_spec(a),
        naught(T::spec_zero()),
        unity(one::<T>()),
        finite(T::spec_zero()),
        finite(one::<T>()),
        T::spec_zero().below_spec(one()),
        T::spec_zero().at_most_spec(one()),
{
    reveal(compares);
    assert(finite(T::spec_count(1)));
}

/// A number between finite ones is finite.
pub proof fn lemma_between_finite<T: Scalar>(a: T, x: T, b: T)
    requires
        compares::<T>(),
        a.at_most_spec(x),
        x.at_most_spec(b),
        finite(a),
        finite(b),
    ensures
        finite(x),
{
    reveal(compares);
}

/// Sums in order.
pub proof fn lemma_plus<T: Scalar>(a: T, b: T, c: T)
    requires
        adds_in_order::<T>(),
    ensures
        a.at_most_spec(b) && finite(c) ==> a.plus_spec(c).at_most_spec(b.plus_spec(c))
            && c.plus_spec(a).at_most_spec(c.plus_spec(b)),
        T::spec_zero().at_most_spec(a) && T::spec_zero().at_most_spec(b) ==> a.at_most_spec(
            a.plus_spec(b),
        ) && b.at_most_spec(a.plus_spec(b)),
        finite(a) && naught(b) ==> a.plus_spec(b).at_most_spec(a) && a.at_most_spec(
            a.plus_spec(b),
        ),
{
    reveal(adds_in_order);
}

/// Differences in order.
pub proof fn lemma_minus<T: Scalar>(a: T, b: T, c: T)
    requires
        adds_in_order::<T>(),
    ensures
        a.at_most_spec(b) && finite(c) ==> a.minus_spec(c).at_most_spec(b.minus_spec(c))
            && c.minus_spec(b).at_most_spec(c.minus_spec(a)),
        finite(a) ==> naught(a.minus_spec(a)),
        finite(a) && naught(b) ==> a.minus_spec(b).at_most_spec(a) && a.at_most_spec(
            a.minus_spec(b),
        ),
{
    reveal(adds_in_order);
}

/// Changed signs turn the order round.
pub proof fn lemma_negated<T: Scalar>(a: T, b: T)
    requires
        adds_in_order::<T>(),
    ensures
        a.at_most_spec(b) ==> b.negated_spec().at_most_spec(a.negated_spec()),
        naught(T::spec_zero().negated_spec()),
        finite(a) ==> finite(a.negated_spec()),
{
    reveal(adds_in_order);
}

/// Products in order.
pub proof fn lemma_times<T: Scalar>(a: T, b: T, s: T)
    requires
        multiplies_in_order::<T>(),
        finite(a),
        finite(b),
    ensures
        a.at_most_spec(b) && finite(s) && T::spec_zero().at_most_spec(s) ==> a.times_spec(
            s,
        ).at_most_spec(b.times_spec(s)) && s.times_spec(a).at_most_spec(s.times_spec(b)),
        naught(s) ==> naught(a.times_spec(s)) && naught(s.times_spec(a)),
        unity(s) ==> a.times_spec(s).at_most_spec(a) && a.at_most_spec(a.times_spec(s)),
{
    reveal(multiplies_in_order);
}

/// Products with zero.
pub proof fn lemma_times_naught<T: Scalar>(a: T, z: T)
    requires
        multiplies_in_order::<T>(),
        finite(a),
        naught(z),
    ensures
        naught(a.times_spec(z)),
        naught(z.times_spec(a)),
{
    reveal(multiplies_in_order);
}

/// Quotients in order.
pub proof fn lemma_over<T: Scalar>(a: T, b: T, s: T)
    requires
        multiplies_in_order::<T>(),
        T::spec_zero().below_spec(s),
    ensures
        a.at_most_spec(b) && finite(a) && finite(b) && finite(s) ==> a.over_spec(s).at_most_spec(
            b.over_spec(s),
        ),
        naught(a) ==> naught(a.over_spec(s)),
        finite(s) ==> unity(s.over_spec(s)),
{
    reveal(multiplies_in_order);
}

/// One over a number that is not less than one.
pub proof fn lemma_inverse<T: Scalar>(x: T)
    requires
        multiplies_in_order::<T>(),
        one::<T>().at_most_spec(x),
    ensures
        T::spec_zero().at_most_spec(one::<T>().over_spec(x)),
        one::<T>().over_spec(x).at_most_spec(one()),
{
    reveal(multiplies_in_order);
}

/// One over a root.
pub proof fn lemma_root<T: Scalar>(x: T)
    requires
        grows_in_order::<T>(),
        T::spec_zero().below_spec(x),
        finite(x),
    ensures
        finite(one::<T>().over_spec(x.root_spec())),
        T::spec_zero().below_spec(one::<T>().over_spec(x.root_spec())),
{
    reveal(grows_in_order);
}

/// Exponentials in order.
pub proof fn lemma_exp<T: Scalar>(a: T, b: T)
    requires
        grows_in_order::<T>(),
    ensures
        a.at_most_spec(b) ==> a.exp_spec().at_most_spec(b.exp_spec()),
        a.at_most_spec(a) ==> T::spec_zero().at_most_spec(a.exp_spec()),
        naught(a) ==> unity(a.exp_spec()),
{
    reveal(grows_in_order);
}

/// Logarithms in order.
pub proof fn lemma_ln<T: Scalar>(a: T, b: T)
    requires
        grows_in_order::<T>(),
    ensures
        T::spec_zero().below_spec(a) && a.at_most_spec(b) ==> a.ln_spec().at_most_spec(b.ln_spec()),
        unity(a) ==> naught(a.ln_spec()),
{
    reveal(grows_in_order);
}

/// The hyperbolic tangent in order.
pub proof fn lemma_tanh<T: Scalar>(a: T, b: T)
    requires
        grows_in_order::<T>(),
    ensures
        a.at_most_spec(b) ==> a.tanh_spec().at_most_spec(b.tanh_spec()),
        a.at_most_spec(a) ==> a.tanh_spec().at_most_spec(one())
            && one::<T>().negated_spec().at_most_spec(a.tanh_spec()),
        naught(a) ==> naught(a.tanh_spec()),
{
    reveal(grows_in_order);
}

/// What is not less than a positive number is positive.
pub proof fn lemma_positive<T: Scalar>(a: T, b: T)
    requires
        compares::<T>(),
        T::spec_zero().below_spec(a),
        a.at_most_spec(b),
    ensures
        T::spec_zero().below_spec(b),
{
    reveal(compares);
}

/// Counts above zero are positive numbers.
pub proof fn lemma_positive_count<T: Scalar>(n: usize)
    requires
        compares::<T>(),
        n > 0,
    ensures
        finite(T::spec_count(n)),
        T::spec_zero().below_spec(T::spec_count(n)),
        one::<T>().at_most_spec(T::spec_count(n)),
{
    assert(finite(T::spec_count(n)) && one::<T>().at_most_spec(T::spec_count(n))) by {
        reveal(compares);
        assert(T::spec_count(1).at_most_spec(T::spec_count(n)));
    }
    lemma_not_below(T::spec_zero(), one::<T>());
    lemma_positive(one::<T>(), T::spec_count(n));
}

/// A sum of numbers that are not negative is not negative and not less than any of them.
pub proof fn lemma_sum_bounds<T: Scalar>(s: Seq<T>, n: nat)
    requires
        compares::<T>(),
        adds_in_order::<T>(),
        n <= s.len(),
        forall|i: int| 0 <= i < n ==> T::spec_zero().at_most_spec(#[trigger] s[i]),
    ensures
        T::spec_zero().at_most_spec(sum_of(s, n)),
        forall|i: int| 0 <= i < n ==> (#[trigger] s[i]).at_most_spec(sum_of(s, n)),
    decreases n,
{
    if n == 0 {
        lemma_not_below(T::spec_zero(), T::spec_zero());
    } else {
        lemma_sum_bounds(s, (n - 1) as nat);
        let p = sum_of(s, (n - 1) as nat);
        let x = s[n - 1];
        assert(T::spec_zero().at_most_spec(x));
        lemma_plus(p, x, p);
        lemma_chain(T::spec_zero(), p, sum_of(s, n));
        assert forall|i: int| 0 <= i < n implies (#[trigger] s[i]).at_most_spec(sum_of(s, n)) by {
            if i < n - 1 {
                lemma_chain(s[i], p, sum_of(s, n));
            }
        }
    }
}

} // verus!
