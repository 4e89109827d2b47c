//! Reports that compare a dense model with its transmuted form.

use vstd::prelude::*;
use crate::exact::{computes_exactly, lemma_count_adds, lemma_div, lemma_mul, lemma_swap};
use crate::options::{default_options, IndexKind, SparseOptions};
use crate::order::{
    compares, finite, keeps_order, lemma_between_finite, lemma_chain, lemma_minus, lemma_not_below,
    lemma_over, lemma_positive, lemma_positive_count, lemma_times, lemma_times_naught, naught,
    unity,
};
use crate::ppl::{
    dense_losses, dense_ppl, dense_ppl_hopfield, is_sparse_ppl, ppl_of,
    sparse_ppl_hopfield_with_options, sparse_ppl_with_options, Forward,
};
use crate::scalar::Scalar;
use crate::sparse::TransmutedModel;
use crate::sparse_forward::{memories_stored, model_runs, Activation};
use crate::text::{decimal, push_decimal};
use crate::tokenizer::corpus_tokens;
use crate::toy_lm::{can_run, ToyLm};
use crate::trainer::{targets_known, tokenize};
use crate::transformer::one;

verus! {

/// How a transmuted model compares with its dense form.
#[derive(Debug, Clone, Copy)]
pub struct CompareReport<T> {
    pub ppl_dense: T,
    pub ppl_sparse: T,
    /// How much higher the sparse perplexity is, relative to the dense one.
    pub rel_degradation: T,
    /// The share of the parameters that is active per token, roughly.
    pub avg_active_fraction: T,
    pub activation_mode: Activation<T>,
}

/// How `b` compares with `a`: its excess over `a`, relative to `a`; zero if `a` is not
/// positive.
pub open spec fn rel_drop_spec<T: Scalar>(a: T, b: T) -> T {
    if T::spec_zero().below_spec(a) {
        b.minus_spec(a).over_spec(a)
    } else {
        T::spec_zero()
    }
}

/// How `b` compares with `a`: its excess over `a`, relative to `a`; zero if `a` is not
/// positive.
pub fn rel_drop<T: Scalar>(a: T, b: T) -> (r: T)
    ensures
        r == rel_drop_spec(a, b),
{
    if T::zero().below(a) {
        b.minus(a).over(a)
    } else {
        T::zero()
    }
}

/// The reported degradation has the sign of the difference: it is not negative where the
/// perplexity rose, not positive where it fell, and zero where it stayed. The higher the new
/// perplexity, the higher the degradation.
pub proof fn law_degradation_sign<T: Scalar>(dense: T, sparse: T, worse: T)
    requires
        keeps_order::<T>(),
        finite(dense),
        finite(sparse),
        finite(worse),
        T::spec_zero().below_spec(dense),
        finite(sparse.minus_spec(dense)),
        finite(worse.minus_spec(dense)),
        sparse.at_most_spec(worse),
    ensures
        dense.at_most_spec(sparse) ==> T::spec_zero().at_most_spec(rel_drop_spec(dense, sparse)),
        sparse.at_most_spec(dense) ==> rel_drop_spec(dense, sparse).at_most_spec(T::spec_zero()),
        naught(rel_drop_spec(dense, dense)),
        rel_drop_spec(dense, sparse).at_most_spec(rel_drop_spec(dense, worse)),
{
    let zero = T::spec_zero();
    let d = sparse.minus_spec(dense);
    let none = dense.minus_spec(dense);
    lemma_minus(dense, sparse, dense);
    lemma_minus(sparse, dense, dense);
    lemma_minus(sparse, worse, dense);
    lemma_minus(dense, dense, dense);
    lemma_not_below(zero, none);
    lemma_between_finite(zero, none, zero);
    lemma_over(none, d, dense);
    lemma_over(d, none, dense);
    lemma_over(d, worse.minus_spec(dense), dense);
    if dense.at_most_spec(sparse) {
        lemma_chain(zero, none.over_spec(dense), d.over_spec(dense));
    }
    if sparse.at_most_spec(dense) {
        lemma_chain(d.over_spec(dense), none.over_spec(dense), zero);
    }
}

/// Where no quotient by the dense perplexity is rounded to zero, a perplexity that rose is
/// reported as a positive degradation.
pub proof fn law_degradation_positive<T: Scalar>(dense: T, sparse: T)
    requires
        T::spec_zero().below_spec(dense),
        dense.below_spec(sparse),
        forall|a: T, b: T|
            a.below_spec(b) ==> T::spec_zero().below_spec(#[trigger] b.minus_spec(a)),
        forall|x: T|
            T::spec_zero().below_spec(x) ==> T::spec_zero().below_spec(
                #[trigger] x.over_spec(dense),
            ),
    ensures
        T::spec_zero().below_spec(rel_drop_spec(dense, sparse)),
{
}

/// On integers the degradation says how many times the dense perplexity the sparse one exceeds
/// it by, rounded down: a perplexity that doubles has degraded by one.
pub proof fn law_integer_degradation(dense: i64, sparse: i64)
    requires
        0 < dense <= sparse,
    ensures
        rel_drop_spec(dense, sparse) * dense <= sparse - dense,
        sparse - dense < (rel_drop_spec(dense, sparse) + 1) * dense,
        sparse == 2 * dense ==> rel_drop_spec(dense, sparse) == 1,
{
    let d = (sparse - dense) as int;
    assert(sparse.minus_spec(dense) == d);
    assert(rel_drop_spec(dense, sparse) == d / dense as int);
    vstd::arithmetic::div_mod::lemma_fundamental_div_mod(d, dense as int);
    vstd::arithmetic::div_mod::lemma_mod_bound(d, dense as int);
    let q = d / dense as int;
    assert((q + 1) * dense == q * dense + dense) by (nonlinear_arith);
    assert(q * dense == dense * q) by (nonlinear_arith);
    if sparse == 2 * dense {
        vstd::arithmetic::div_mod::lemma_div_by_self(dense as int);
    }
}

/// Where arithmetic is exact, the dense perplexity and its degraded part make up the sparse
/// perplexity.
pub proof fn law_degradation_adds_up<T: Scalar>(dense: T, sparse: T)
    requires
        T::spec_zero().below_spec(dense),
        forall|a: T, b: T| #[trigger] a.plus_spec(b.minus_spec(a)) == b,
        forall|a: T| (#[trigger] a.over_spec(dense)).times_spec(dense) == a,
    ensures
        dense.plus_spec(rel_drop_spec(dense, sparse).times_spec(dense)) == sparse,
{
}

/// Whether `p` says in percent how a perplexity compares with a positive one: it has the sign of
/// the difference, and where arithmetic is exact, it is the difference in hundredths of the first.
pub open spec fn reads_percent<T: Scalar>(base: T, other: T, p: T) -> bool {
    &&& keeps_order::<T>() && T::spec_zero().below_spec(base) && finite(base) && finite(other)
        && finite(other.minus_spec(base)) && finite(
        other.minus_spec(base).over_spec(base),
    ) ==> {
        &&& base.at_most_spec(other) ==> T::spec_zero().at_most_spec(p)
        &&& other.at_most_spec(base) ==> p.at_most_spec(T::spec_zero())
    }
    &&& computes_exactly::<T>() && T::spec_zero().below_spec(base) && base.times_spec(
        one::<T>().over_spec(base),
    ) == one::<T>() ==> base.times_spec(p) == other.minus_spec(base).times_spec(
        T::spec_count(100),
    )
}

/// The relative excess in hundredths reads as a percentage.
pub proof fn lemma_reads_percent<T: Scalar>(base: T, other: T)
    ensures
        reads_percent(base, other, rel_drop_spec(base, other).times_spec(T::spec_count(100))),
{
    let zero = T::spec_zero();
    let hundred = T::spec_count(100);
    let d = other.minus_spec(base);
    let q = d.over_spec(base);
    if keeps_order::<T>() && zero.below_spec(base) && finite(base) && finite(other) && finite(d)
        && finite(q) {
        lemma_not_below(other, other);
        law_degradation_sign(base, other, other);
        lemma_not_below(zero, zero);
        lemma_positive_count::<T>(100);
        lemma_not_below(zero, hundred);
        lemma_times(zero, q, hundred);
        lemma_times(q, zero, hundred);
        lemma_times_naught(hundred, zero);
        if base.at_most_spec(other) {
            lemma_chain(zero, zero.times_spec(hundred), q.times_spec(hundred));
        }
        if other.at_most_spec(base) {
            lemma_chain(q.times_spec(hundred), zero.times_spec(hundred), zero);
        }
    }
    if computes_exactly::<T>() && zero.below_spec(base) && base.times_spec(
        one::<T>().over_spec(base),
    ) == one::<T>() {
        let inv = one::<T>().over_spec(base);
        lemma_div(d, base, 0);
        lemma_swap(d, inv);
        lemma_mul(base, inv, d);
        lemma_mul(base, q, hundred);
    }
}

/// The number of experts in the first `n` layers.
pub open spec fn experts_upto<T: Scalar>(tm: TransmutedModel<T>, n: nat) -> T
    decreases n,
{
    if n == 0 {
        T::spec_zero()
    } else {
        let block = tm.layers@[n - 1];
        experts_upto(tm, (n - 1) as nat).plus_spec(
            T::spec_count(block[0].experts@.len() as usize),
        ).plus_spec(T::spec_count(block[1].experts@.len() as usize)).plus_spec(
            T::spec_count(block[2].experts@.len() as usize),
        ).plus_spec(T::spec_count(block[3].experts@.len() as usize))
    }
}

/// The larger of two numbers.
pub open spec fn larger<T: Scalar>(a: T, b: T) -> T {
    if b.below_spec(a) {
        a
    } else {
        b
    }
}

/// The smaller of two numbers.
pub open spec fn smaller<T: Scalar>(a: T, b: T) -> T {
    if a.below_spec(b) {
        a
    } else {
        b
    }
}

/// A rough share of the parameters that is active: all of them, or at a threshold the
/// experts that can be kept, times the threshold.
pub open spec fn active_share<T: Scalar>(tm: TransmutedModel<T>, act: Activation<T>) -> T {
    match act {
        Activation::All => one::<T>(),
        Activation::Threshold { ratio, max_k } => smaller(
            T::spec_count(max_k).over_spec(
                larger(experts_upto(tm, tm.layers@.len()), one::<T>()),
            ),
            one::<T>(),
        ).times_spec(smaller(larger(ratio, T::spec_zero()), one::<T>())),
    }
}

/// The share is never negative and never more than everything. It does not fall when the
/// threshold rises or when more experts can be kept.
pub proof fn law_active_share<T: Scalar>(
    tm: TransmutedModel<T>,
    ratio: T,
    higher: T,
    max_k: usize,
    more: usize,
)
    requires
        keeps_order::<T>(),
        finite(experts_upto(tm, tm.layers@.len())),
        finite(ratio),
        finite(higher),
        ratio.at_most_spec(higher),
        max_k <= more,
    ensures
        T::spec_zero().at_most_spec(active_share(tm, Activation::Threshold { ratio, max_k })),
        active_share(tm, Activation::Threshold { ratio, max_k }).at_most_spec(
            active_share(tm, Activation::<T>::All),
        ),
        active_share(tm, Activation::Threshold { ratio, max_k }).at_most_spec(
            active_share(tm, Activation::Threshold { ratio: higher, max_k: more }),
        ),
{
    let zero = T::spec_zero();
    let o = one::<T>();
    let total = larger(experts_upto(tm, tm.layers@.len()), o);
    lemma_not_below(zero, o);
    lemma_not_below(o, experts_upto(tm, tm.layers@.len()));
    assert(o.at_most_spec(total) && finite(total));
    lemma_positive(o, total);
    let (k1, k2) = (T::spec_count(max_k), T::spec_count(more));
    lemma_counts::<T>(max_k, more);
    lemma_over(zero, k1, total);
    lemma_over(k1, k2, total);
    let (x1, x2) = (k1.over_spec(total), k2.over_spec(total));
    lemma_chain(zero, zero.over_spec(total), x1);
    lemma_chain(zero, x1, x2);
    let (s1, s2) = (smaller(x1, o), smaller(x2, o));
    lemma_not_below(x1, o);
    lemma_not_below(x2, o);
    lemma_not_below(o, x1);
    lemma_not_below(o, x2);
    if x2.below_spec(o) {
        lemma_chain(x1, x2, o);
        lemma_smaller(x1, o);
    }
    lemma_smaller(x1, o);
    lemma_smaller(x2, o);
    if !x2.below_spec(o) {
        assert(s2 == o);
    } else if x1.below_spec(o) {
        assert(s1.at_most_spec(s2));
    } else {
        lemma_chain(o, x1, x2);
    }
    let (l1, l2) = (larger(ratio, zero), larger(higher, zero));
    lemma_not_below(zero, ratio);
    lemma_not_below(zero, higher);
    lemma_not_below(ratio, zero);
    lemma_not_below(higher, zero);
    if zero.below_spec(ratio) {
        lemma_positive(ratio, higher);
    }
    assert(zero.at_most_spec(l1) && zero.at_most_spec(l2) && l1.at_most_spec(l2));
    let (t1, t2) = (smaller(l1, o), smaller(l2, o));
    lemma_smaller(l1, o);
    lemma_smaller(l2, o);
    lemma_not_below(l1, o);
    lemma_not_below(l2, o);
    lemma_not_below(o, l1);
    lemma_not_below(o, l2);
    if l2.below_spec(o) && !l1.below_spec(o) {
        lemma_chain(o, l1, l2);
    }
    assert(s1.at_most_spec(s2) && t1.at_most_spec(t2));
    lemma_between_finite(zero, s1, o);
    lemma_between_finite(zero, s2, o);
    lemma_between_finite(zero, t1, o);
    lemma_between_finite(zero, t2, o);
    // The product lies between nothing and everything, and follows its factors.
    lemma_times(zero, s1, t1);
    lemma_times_naught(t1, zero);
    lemma_chain(zero, zero.times_spec(t1), s1.times_spec(t1));
    lemma_times(s1, o, t1);
    lemma_times(t1, o, o);
    lemma_times(s1, s1, o);
    lemma_times(t1, o, s1);
    lemma_chain(s1.times_spec(t1), s1.times_spec(o), s1);
    lemma_chain(s1.times_spec(t1), s1, o);
    lemma_times(s1, s2, t1);
    lemma_times(t1, t2, s2);
    lemma_chain(s1.times_spec(t1), s2.times_spec(t1), s2.times_spec(t2));
}

/// Nothing is active where no expert can be kept or the threshold is not positive. Everything is
/// where all experts can be kept and the threshold is one.
pub proof fn law_active_share_extremes<T: Scalar>(tm: TransmutedModel<T>, ratio: T, max_k: usize)
    requires
        keeps_order::<T>(),
        finite(experts_upto(tm, tm.layers@.len())),
        finite(ratio),
    ensures
        naught(active_share(tm, Activation::Threshold { ratio, max_k: 0 })),
        ratio.at_most_spec(T::spec_zero()) ==> naught(
            active_share(tm, Activation::Threshold { ratio, max_k }),
        ),
        max_k >= 1 && experts_upto(tm, tm.layers@.len()).at_most_spec(T::spec_count(max_k)) ==> unity(
            active_share(tm, Activation::Threshold { ratio: one::<T>(), max_k }),
        ),
{
    let zero = T::spec_zero();
    let o = one::<T>();
    let all = experts_upto(tm, tm.layers@.len());
    let total = larger(all, o);
    lemma_not_below(zero, o);
    lemma_not_below(o, all);
    lemma_not_below(o, o);
    assert(o.at_most_spec(total) && finite(total));
    lemma_positive(o, total);
    let kept = |k: usize| smaller(T::spec_count(k).over_spec(total), o);
    let part = |x: T| smaller(larger(x, zero), o);
    lemma_kept_share::<T>(total, 0);
    lemma_kept_share::<T>(total, max_k);
    lemma_part_share(ratio);
    lemma_part_share(o);
    lemma_times_naught(part(ratio), kept(0));
    lemma_times_naught(kept(max_k), part(zero));
    if ratio.at_most_spec(zero) {
        lemma_times_naught(kept(max_k), part(ratio));
    }
    if max_k >= 1 && all.at_most_spec(T::spec_count(max_k)) {
        let k = T::spec_count(max_k);
        lemma_positive_count::<T>(max_k);
        lemma_over(total, k, total);
        let x = k.over_spec(total);
        lemma_chain(o, total.over_spec(total), x);
        lemma_not_below(o, x);
        assert(kept(max_k) == o);
        lemma_not_below(zero, o);
        assert(part(o) == o);
        lemma_times(o, o, o);
    }
}

/// The share of experts that can be kept lies between nothing and everything, and is nothing for
/// none.
proof fn lemma_kept_share<T: Scalar>(total: T, k: usize)
    requires
        keeps_order::<T>(),
        finite(total),
        T::spec_zero().below_spec(total),
    ensures
        finite(smaller(T::spec_count(k).over_spec(total), one())),
        k == 0 ==> naught(smaller(T::spec_count(k).over_spec(total), one())),
{
    let zero = T::spec_zero();
    let o = one::<T>();
    let x = T::spec_count(k).over_spec(total);
    lemma_not_below(zero, o);
    lemma_counts::<T>(k, k);
    lemma_over(zero, T::spec_count(k), total);
    lemma_chain(zero, zero.over_spec(total), x);
    lemma_smaller(x, o);
    lemma_between_finite(zero, smaller(x, o), o);
    if k == 0 {
        lemma_counts::<T>(0, 0);
        lemma_no_count::<T>();
        lemma_over(T::spec_count(0), zero, total);
        lemma_chain(smaller(x, o), x, zero);
    }
}

/// No experts count as nothing.
proof fn lemma_no_count<T: Scalar>()
    requires
        keeps_order::<T>(),
    ensures
        naught(T::spec_count(0)),
{
    reveal(compares);
}

/// The threshold, held between nothing and everything.
proof fn lemma_part_share<T: Scalar>(x: T)
    requires
        keeps_order::<T>(),
        finite(x),
    ensures
        finite(smaller(larger(x, T::spec_zero()), one())),
        x.at_most_spec(T::spec_zero()) ==> naught(smaller(larger(x, T::spec_zero()), one())),
{
    let zero = T::spec_zero();
    let o = one::<T>();
    let y = larger(x, zero);
    lemma_not_below(zero, o);
    lemma_not_below(zero, x);
    lemma_not_below(x, zero);
    assert(zero.at_most_spec(y));
    lemma_smaller(y, o);
    lemma_between_finite(zero, smaller(y, o), o);
}

/// The number of experts in the first `n` layers, as an integer.
pub open spec fn expert_total<T>(tm: TransmutedModel<T>, n: nat) -> nat
    decreases n,
{
    if n == 0 {
        0
    } else {
        expert_total(tm, (n - 1) as nat) + tm.layers@[n - 1][0].experts@.len()
            + tm.layers@[n - 1][1].experts@.len() + tm.layers@[n - 1][2].experts@.len()
            + tm.layers@[n - 1][3].experts@.len()
    }
}

/// The experts of all four matrices of every layer are counted.
pub proof fn law_experts_counted<T: Scalar>(tm: TransmutedModel<T>, n: nat)
    requires
        computes_exactly::<T>(),
        n <= tm.layers@.len(),
        expert_total(tm, n) <= usize::MAX,
    ensures
        experts_upto(tm, n) == T::spec_count(expert_total(tm, n) as usize),
    decreases n,
{
    if n == 0 {
        lemma_div(one::<T>(), one::<T>(), 0);
    } else {
        law_experts_counted(tm, (n - 1) as nat);
        let before = expert_total(tm, (n - 1) as nat);
        let b = tm.layers@[n - 1];
        let (e0, e1, e2, e3) = (
            b[0].experts@.len(),
            b[1].experts@.len(),
            b[2].experts@.len(),
            b[3].experts@.len(),
        );
        lemma_count_adds::<T>(before as usize, e0 as usize);
        lemma_count_adds::<T>((before + e0) as usize, e1 as usize);
        lemma_count_adds::<T>((before + e0 + e1) as usize, e2 as usize);
        lemma_count_adds::<T>((before + e0 + e1 + e2) as usize, e3 as usize);
    }
}

/// The smaller of two numbers is at most each of them.
proof fn lemma_smaller<T: Scalar>(a: T, b: T)
    requires
        keeps_order::<T>(),
        T::spec_zero().at_most_spec(a),
        T::spec_zero().at_most_spec(b),
    ensures
        smaller(a, b).at_most_spec(a),
        smaller(a, b).at_most_spec(b),
        T::spec_zero().at_most_spec(smaller(a, b)),
{
    lemma_not_below(T::spec_zero(), a);
    lemma_not_below(T::spec_zero(), b);
    lemma_not_below(a, b);
    lemma_not_below(b, a);
}

/// Counts are in order.
proof fn lemma_counts<T: Scalar>(m: usize, n: usize)
    requires
        keeps_order::<T>(),
        m <= n,
    ensures
        finite(T::spec_count(m)),
        finite(T::spec_count(n)),
        T::spec_count(m).at_most_spec(T::spec_count(n)),
        T::spec_zero().at_most_spec(T::spec_count(m)),
{
    reveal(compares);
    assert(T::spec_count(0).at_most_spec(T::spec_count(m)));
}

/// The larger of two numbers, computed.
fn larger_of<T: Scalar>(a: T, b: T) -> (r: T)
    ensures
        r == larger(a, b),
{
    if b.below(a) {
        a
    } else {
        b
    }
}

/// The smaller of two numbers, computed.
fn smaller_of<T: Scalar>(a: T, b: T) -> (r: T)
    ensures
        r == smaller(a, b),
{
    if a.below(b) {
        a
    } else {
        b
    }
}

/// A rough share of the parameters that is active per token.
pub fn avg_active_fraction<T: Scalar>(tm: &TransmutedModel<T>, act: Activation<T>) -> (r: T)
    ensures
        r == active_share(*tm, act),
{
    match act {
        Activation::All => T::from_count(1),
        Activation::Threshold { ratio, max_k } => {
            let mut total = T::zero();
            for l in 0..tm.layers.len()
                invariant
                    total == experts_upto(*tm, l as nat),
            {
                let block = &tm.layers[l];
                total = total.plus(T::from_count(block[0].experts.len()));
                total = total.plus(T::from_count(block[1].experts.len()));
                total = total.plus(T::from_count(block[2].experts.len()));
                total = total.plus(T::from_count(block[3].experts.len()));
            }
            let kept = T::from_count(max_k).over(larger_of(total, T::from_count(1)));
            smaller_of(kept, T::from_count(1)).times(
                smaller_of(larger_of(ratio, T::zero()), T::from_count(1)),
            )
        },
    }
}

/// The text of an activation. `ratio` is the text of the threshold.
pub open spec fn mode_text<T: Scalar>(act: Activation<T>, ratio: Seq<char>) -> Seq<char> {
    match act {
        Activation::All => "all-experts (upper bound)"@,
        Activation::Threshold { ratio: _, max_k } => "threshold(ratio="@ + ratio + ", max_k="@
            + decimal(max_k as nat) + ")"@,
    }
}

/// Appends the text of an activation.
fn push_mode<T: Scalar>(out: &mut String, act: Activation<T>, ratio: &str)
    ensures
        final(out)@ == old(out)@ + mode_text(act, ratio@),
{
    match act {
        Activation::All => {
            out.append("all-experts (upper bound)");
        },
        Activation::Threshold { ratio: _, max_k } => {
            let ghost before = out@;
            out.append("threshold(ratio=");
            out.append(ratio);
            out.append(", max_k=");
            push_decimal(out, max_k as u64);
            out.append(")");
            assert(out@ =~= before + mode_text(act, ratio@));
        },
    }
}

impl<T: Scalar> CompareReport<T> {
    /// The degradation in percent.
    pub fn degradation_percent(&self) -> (r: T)
        ensures
            r == self.rel_degradation.times_spec(T::spec_count(100)),
            self.rel_degradation == rel_drop_spec(self.ppl_dense, self.ppl_sparse)
                ==> reads_percent(self.ppl_dense, self.ppl_sparse, r),
    {
        proof {
            lemma_reads_percent(self.ppl_dense, self.ppl_sparse);
        }
        self.rel_degradation.times(T::from_count(100))
    }

    /// The active share in percent.
    pub fn active_percent(&self) -> (r: T)
        ensures
            r == self.avg_active_fraction.times_spec(T::spec_count(100)),
    {
        self.avg_active_fraction.times(T::from_count(100))
    }

    /// The report as text. The parameters are the texts of the two perplexities, of the
    /// degradation and the active share in percent, and of the threshold.
    pub open spec fn text(
        &self,
        ppl_dense: Seq<char>,
        ppl_sparse: Seq<char>,
        degradation: Seq<char>,
        active: Seq<char>,
        ratio: Seq<char>,
    ) -> Seq<char> {
        "PPL dense  : "@ + ppl_dense + "\nPPL sparse : "@ + ppl_sparse + "\ndegradation: +"@
            + degradation + "%\navg active : "@ + active + "% of params/token\nactivation : "@
            + mode_text(self.activation_mode, ratio)
    }

    /// The report as text. The parameters are the texts of the two perplexities, of the
    /// degradation and the active share in percent, and of the threshold.
    pub fn pretty(
        &self,
        ppl_dense: &str,
        ppl_sparse: &str,
        degradation: &str,
        active: &str,
        ratio: &str,
    ) -> (r: String)
        ensures
            r@ == self.text(ppl_dense@, ppl_sparse@, degradation@, active@, ratio@),
    {
        let mut out = String::from_str("PPL dense  : ");
        out.append(ppl_dense);
        out.append("\nPPL sparse : ");
        out.append(ppl_sparse);
        out.append("\ndegradation: +");
        out.append(degradation);
        out.append("%\navg active : ");
        out.append(active);
        out.append("% of params/token\nactivation : ");
        push_mode(&mut out, self.activation_mode, ratio);
        out
    }
}

/// Whether a dense model can be evaluated on a corpus.
pub open spec fn dense_ready<T: Scalar>(lm: ToyLm<T>, corpus: Seq<u8>, seq: int) -> bool {
    &&& lm.wf()
    &&& can_run(lm.config, seq as nat)
    &&& targets_known(corpus_tokens(corpus), seq, lm.config.vocab_size as int)
}

/// Whether a transmuted model can be evaluated on a corpus.
pub open spec fn sparse_ready<T: Scalar>(
    tm: TransmutedModel<T>,
    corpus: Seq<u8>,
    seq: int,
    kind: IndexKind,
) -> bool {
    model_runs(tm, kind) && targets_known(corpus_tokens(corpus), seq, tm.config.vocab_size as int)
}

/// Whether the report is that of the two models on a corpus.
pub open spec fn is_comparison<T: Scalar>(
    r: CompareReport<T>,
    lm: ToyLm<T>,
    tm: TransmutedModel<T>,
    corpus: Seq<u8>,
    seq: int,
    act: Activation<T>,
    opts: SparseOptions,
) -> bool {
    let ids = corpus_tokens(corpus);
    &&& r.ppl_dense == ppl_of(dense_losses(lm, Forward::Gelu, ids, seq))
    &&& is_sparse_ppl(tm, Forward::Gelu, act, opts, ids, seq, r.ppl_sparse)
    &&& r.rel_degradation == rel_drop_spec(r.ppl_dense, r.ppl_sparse)
    &&& r.avg_active_fraction == active_share(tm, act)
    &&& r.activation_mode == act
}

/// The report of two models says that the transmuted model got worse where its perplexity is
/// the higher one, and better where it is the lower one.
pub proof fn law_report_sign<T: Scalar>(
    r: CompareReport<T>,
    lm: ToyLm<T>,
    tm: TransmutedModel<T>,
    corpus: Seq<u8>,
    seq: int,
    act: Activation<T>,
    opts: SparseOptions,
    sparse: T,
)
    requires
        keeps_order::<T>(),
        is_comparison(r, lm, tm, corpus, seq, act, opts),
        ({
            let dense = ppl_of(dense_losses(lm, Forward::Gelu, corpus_tokens(corpus), seq));
            &&& forall|ppl: T| #[trigger]
                is_sparse_ppl(tm, Forward::Gelu, act, opts, corpus_tokens(corpus), seq, ppl) ==> ppl
                    == sparse
            &&& finite(dense)
            &&& finite(sparse)
            &&& finite(sparse.minus_spec(dense))
            &&& T::spec_zero().below_spec(dense)
        }),
    ensures
        ({
            let dense = ppl_of(dense_losses(lm, Forward::Gelu, corpus_tokens(corpus), seq));
            &&& dense.at_most_spec(sparse) ==> T::spec_zero().at_most_spec(r.rel_degradation)
            &&& sparse.at_most_spec(dense) ==> r.rel_degradation.at_most_spec(T::spec_zero())
        }),
{
    lemma_not_below(r.ppl_sparse, r.ppl_sparse);
    law_degradation_sign(r.ppl_dense, r.ppl_sparse, r.ppl_sparse);
}

/// Compares the two models on a corpus, with the given options.
pub fn compare_with_options<T: Scalar>(
    lm: &ToyLm<T>,
    tm: &TransmutedModel<T>,
    corpus: &[u8],
    seq_len: usize,
    act: Activation<T>,
    opts: SparseOptions,
) -> (r: CompareReport<T>)
    requires
        dense_ready(*lm, corpus@, seq_len as int),
        sparse_ready(*tm, corpus@, seq_len as int, opts.index),
    ensures
        is_comparison(r, *lm, *tm, corpus@, seq_len as int, act, opts),
{
    let ids = tokenize(corpus);
    let ppl_dense = dense_ppl(lm, &ids, seq_len);
    let ppl_sparse = sparse_ppl_with_options(tm, &ids, seq_len, act, opts);
    CompareReport {
        ppl_dense,
        ppl_sparse,
        rel_degradation: rel_drop(ppl_dense, ppl_sparse),
        avg_active_fraction: avg_active_fraction(tm, act),
        activation_mode: act,
    }
}

/// Compares the two models on a corpus.
pub fn compare<T: Scalar>(
    lm: &ToyLm<T>,
    tm: &TransmutedModel<T>,
    corpus: &[u8],
    seq_len: usize,
    act: Activation<T>,
) -> (r: CompareReport<T>)
    requires
        dense_ready(*lm, corpus@, seq_len as int),
        sparse_ready(*tm, corpus@, seq_len as int, IndexKind::Brute),
    ensures
        is_comparison(r, *lm, *tm, corpus@, seq_len as int, act, default_options()),
{
    compare_with_options(lm, tm, corpus, seq_len, act, SparseOptions::default())
}

/// How the two models compare under both rules for the feed-forward blocks.
#[derive(Debug, Clone, Copy)]
pub struct CompositeReport<T> {
    /// The dense model under the standard rule.
    pub dense_gelu: T,
    /// The dense model with retrieval.
    pub dense_hopfield: T,
    /// The transmuted model under the standard rule.
    pub sparse_gelu: T,
    /// The transmuted model with retrieval.
    pub sparse_hopfield: T,
    /// The share of the parameters that is active per token, roughly.
    pub avg_active_fraction: T,
    pub activation_mode: Activation<T>,
}

/// The texts of the numbers in a composite report.
pub struct CompositeTexts<'a> {
    /// The active share in percent.
    pub active: &'a str,
    /// The four perplexities.
    pub dense_gelu: &'a str,
    pub dense_hopfield: &'a str,
    pub sparse_gelu: &'a str,
    pub sparse_hopfield: &'a str,
    /// Signed percentages: retrieval against the standard rule in the dense model, the
    /// transmuted model against the dense one under each rule, and retrieval against the
    /// standard rule in the transmuted model.
    pub hopfield_dense: &'a str,
    pub sparse_gelu_loss: &'a str,
    pub sparse_hopfield_loss: &'a str,
    pub hopfield_sparse: &'a str,
    /// The threshold.
    pub ratio: &'a str,
}

impl<T: Scalar> CompositeReport<T> {
    /// The active share in percent.
    pub fn active_percent(&self) -> (r: T)
        ensures
            r == self.avg_active_fraction.times_spec(T::spec_count(100)),
    {
        self.avg_active_fraction.times(T::from_count(100))
    }

    /// In percent: retrieval against the standard rule in the dense model, the transmuted
    /// model against the dense one under the standard rule and with retrieval, and
    /// retrieval against the standard rule in the transmuted model.
    pub fn percents(&self) -> (r: (T, T, T, T))
        ensures
            r.0 == rel_drop_spec(self.dense_gelu, self.dense_hopfield).times_spec(T::spec_count(100)),
            r.1 == rel_drop_spec(self.dense_gelu, self.sparse_gelu).times_spec(T::spec_count(100)),
            r.2 == rel_drop_spec(self.dense_hopfield, self.sparse_hopfield).times_spec(
                T::spec_count(100),
            ),
            r.3 == rel_drop_spec(self.sparse_gelu, self.sparse_hopfield).times_spec(
                T::spec_count(100),
            ),
            reads_percent(self.dense_gelu, self.dense_hopfield, r.0),
            reads_percent(self.dense_gelu, self.sparse_gelu, r.1),
            reads_percent(self.dense_hopfield, self.sparse_hopfield, r.2),
            reads_percent(self.sparse_gelu, self.sparse_hopfield, r.3),
    {
        proof {
            lemma_reads_percent(self.dense_gelu, self.dense_hopfield);
            lemma_reads_percent(self.dense_gelu, self.sparse_gelu);
            lemma_reads_percent(self.dense_hopfield, self.sparse_hopfield);
            lemma_reads_percent(self.sparse_gelu, self.sparse_hopfield);
        }
        let hundred = T::from_count(100);
        (
            rel_drop(self.dense_gelu, self.dense_hopfield).times(hundred),
            rel_drop(self.dense_gelu, self.sparse_gelu).times(hundred),
            rel_drop(self.dense_hopfield, self.sparse_hopfield).times(hundred),
            rel_drop(self.sparse_gelu, self.sparse_hopfield).times(hundred),
        )
    }

    /// The report as text.
    pub open spec fn text(&self, t: CompositeTexts) -> Seq<char> {
        "=== NSE composite: 4-path PPL (β retrieval) ===\nactivation : "@ + mode_text(
            self.activation_mode,
            t.ratio@,
        ) + "\navg active : "@ + t.active@ + "% of params/token\n\ndense  GELU          : "@
            + t.dense_gelu@ + "\ndense  Hopfield(β)   : "@ + t.dense_hopfield@ + "   (vs GELU: "@
            + t.hopfield_dense@ + "%)\nsparse GELU          : "@ + t.sparse_gelu@
            + "   (vs dense GELU: "@ + t.sparse_gelu_loss@ + "%)\nsparse Hopfield(β)   : "@
            + t.sparse_hopfield@ + "   (vs dense Hopfield: "@ + t.sparse_hopfield_loss@
            + "% | vs sparse GELU: "@ + t.hopfield_sparse@ + "%)"@
    }

    /// The report as text.
    pub fn pretty(&self, t: &CompositeTexts) -> (r: String)
        ensures
            r@ == self.text(*t),
    {
        let mut out = String::from_str(
            "=== NSE composite: 4-path PPL (β retrieval) ===\nactivation : ",
        );
        push_mode(&mut out, self.activation_mode, t.ratio);
        out.append("\navg active : ");
        out.append(t.active);
        out.append("% of params/token\n\ndense  GELU          : ");
        out.append(t.dense_gelu);
        out.append("\ndense  Hopfield(β)   : ");
        out.append(t.dense_hopfield);
        out.append("   (vs GELU: ");
        out.append(t.hopfield_dense);
        out.append("%)\nsparse GELU          : ");
        out.append(t.sparse_gelu);
        out.append("   (vs dense GELU: ");
        out.append(t.sparse_gelu_loss);
        out.append("%)\nsparse Hopfield(β)   : ");
        out.append(t.sparse_hopfield);
        out.append("   (vs dense Hopfield: ");
        out.append(t.sparse_hopfield_loss);
        out.append("% | vs sparse GELU: ");
        out.append(t.hopfield_sparse);
        out.append("%)");
        out
    }
}

/// Whether the report is that of the two models on a corpus.
pub open spec fn is_composite_comparison<T: Scalar>(
    r: CompositeReport<T>,
    lm: ToyLm<T>,
    tm: TransmutedModel<T>,
    corpus: Seq<u8>,
    seq: int,
    beta: T,
    act: Activation<T>,
    opts: SparseOptions,
) -> bool {
    let ids = corpus_tokens(corpus);
    let hop = Forward::Hopfield(beta);
    &&& r.dense_gelu == ppl_of(dense_losses(lm, Forward::Gelu, ids, seq))
    &&& r.dense_hopfield == ppl_of(dense_losses(lm, hop, ids, seq))
    &&& is_sparse_ppl(tm, Forward::Gelu, act, opts, ids, seq, r.sparse_gelu)
    &&& is_sparse_ppl(tm, hop, act, opts, ids, seq, r.sparse_hopfield)
    &&& r.avg_active_fraction == active_share(tm, act)
    &&& r.activation_mode == act
}

/// Compares the two models on a corpus under both rules. `beta` is how sharply retrieval
/// prefers the best key.
pub fn compare_composite<T: Scalar>(
    lm: &ToyLm<T>,
    tm: &TransmutedModel<T>,
    corpus: &[u8],
    seq_len: usize,
    beta: T,
    act: Activation<T>,
    opts: SparseOptions,
) -> (r: CompositeReport<T>)
    requires
        dense_ready(*lm, corpus@, seq_len as int),
        sparse_ready(*tm, corpus@, seq_len as int, opts.index),
        memories_stored(*tm),
    ensures
        is_composite_comparison(
            r,
            *lm,
            *tm,
            corpus@,
            seq_len as int,
            beta,
            act,
            opts,
        ),
{
    let ids = tokenize(corpus);
    CompositeReport {
        dense_gelu: dense_ppl(lm, &ids, seq_len),
        dense_hopfield: dense_ppl_hopfield(lm, &ids, seq_len, beta),
        sparse_gelu: sparse_ppl_with_options(tm, &ids, seq_len, act, opts),
        sparse_hopfield: sparse_ppl_hopfield_with_options(tm, &ids, seq_len, beta, act, opts),
        avg_active_fraction: avg_active_fraction(tm, act),
        activation_mode: act,
    }
}

} // verus!
