//! What the loss, its gradient and the perplexity say of a model's scores.

use vstd::prelude::*;
use crate::autograd::{floored_prob, least_prob, logit_grads, loss_upto, mean_loss, prob_row};
use crate::exact::{
    computes_exactly, lemma_add, lemma_constant_sum, lemma_count_quotient, lemma_div, lemma_mul,
    lemma_negative_factor, lemma_opposite, lemma_single_term, lemma_sum_adds, lemma_sum_scales,
    lemma_swap,
};
use crate::forward_laws::lemma_exps;
use crate::kernel::lemma_plus_zero;
use crate::order::{
    finite, keeps_order, lemma_between_finite, lemma_chain, lemma_exp, lemma_inverse, lemma_ln,
    lemma_minus, lemma_not_below, lemma_over, lemma_plus, lemma_positive, lemma_positive_count,
    lemma_sum_bounds,
};
use crate::ppl::{logprobs_spec, perplexity_spec, ppl_of};
use crate::scalar::{sum_of, Scalar};
use crate::transformer::{one, shifted_exps};

verus! {

/// The probabilities of the next tokens lie between zero and one, and a token with a higher
/// score is not less probable.
pub proof fn law_probabilities_in_order<T: Scalar>(scores: Seq<T>)
    requires
        keeps_order::<T>(),
        scores.len() > 0,
        forall|i: int| 0 <= i < scores.len() ==> finite(#[trigger] scores[i]),
        finite(sum_of(shifted_exps(scores), scores.len())),
    ensures
        prob_row(scores).len() == scores.len(),
        forall|i: int|
            0 <= i < scores.len() ==> T::spec_zero().at_most_spec(#[trigger] prob_row(scores)[i])
                && prob_row(scores)[i].at_most_spec(one()),
        forall|i: int, j: int|
            0 <= i < scores.len() && 0 <= j < scores.len() && scores[i].at_most_spec(scores[j])
                ==> (#[trigger] prob_row(scores)[i]).at_most_spec(#[trigger] prob_row(scores)[j]),
{
    let e = shifted_exps(scores);
    let sum = sum_of(e, e.len());
    let zero = T::spec_zero();
    lemma_exps(scores);
    lemma_not_below(zero, one::<T>());
    lemma_positive(one::<T>(), sum);
    lemma_sum_bounds(e, e.len());
    assert forall|i: int, j: int|
        0 <= i < scores.len() && 0 <= j < scores.len() && scores[i].at_most_spec(scores[j]) implies (
    #[trigger] prob_row(scores)[i]).at_most_spec(#[trigger] prob_row(scores)[j]) by {
        assert(e[i].at_most_spec(e[j]));
        lemma_over(e[i], e[j], sum);
    }
    assert forall|i: int| 0 <= i < scores.len() implies zero.at_most_spec(
        #[trigger] prob_row(scores)[i],
    ) && prob_row(scores)[i].at_most_spec(one()) by {
        let p = prob_row(scores)[i];
        assert(zero.at_most_spec(e[i]) && finite(e[i]));
        assert(e[i].at_most_spec(sum));
        lemma_over(zero, e[i], sum);
        lemma_over(e[i], sum, sum);
        lemma_chain(zero, zero.over_spec(sum), p);
        lemma_chain(p, sum.over_spec(sum), one());
    }
}

/// The probabilities of the next tokens sum up to one.
pub proof fn law_probabilities_sum_to_one<T: Scalar>(scores: Seq<T>)
    requires
        computes_exactly::<T>(),
        ({
            let sum = sum_of(shifted_exps(scores), scores.len());
            sum.times_spec(one::<T>().over_spec(sum)) == one::<T>()
        }),
    ensures
        sum_of(prob_row(scores), scores.len()) == one::<T>(),
{
    let e = shifted_exps(scores);
    let sum = sum_of(e, e.len());
    let inv = one::<T>().over_spec(sum);
    let p = prob_row(scores);
    assert forall|i: int| 0 <= i < scores.len() implies #[trigger] p[i] == inv.times_spec(e[i]) by {
        lemma_div(e[i], sum, 0);
        lemma_swap(e[i], inv);
    }
    lemma_sum_scales(inv, e, p, scores.len());
    lemma_swap(inv, sum);
}

/// The negated logarithm of a probability is not negative.
proof fn lemma_surprise<T: Scalar>(p: T)
    requires
        keeps_order::<T>(),
        T::spec_zero().at_most_spec(p),
        p.at_most_spec(one()),
        T::spec_zero().below_spec(least_prob::<T>()),
        least_prob::<T>().at_most_spec(one()),
    ensures
        T::spec_zero().below_spec(floored_prob(p)),
        floored_prob(p).ln_spec().at_most_spec(T::spec_zero()),
{
    let q = floored_prob(p);
    let o = one::<T>();
    lemma_not_below(o, o);
    if least_prob::<T>().at_most_spec(p) {
        lemma_positive(least_prob::<T>(), p);
    }
    lemma_ln(q, o);
    lemma_ln(o, o);
    lemma_chain(q.ln_spec(), o.ln_spec(), T::spec_zero());
}

/// The loss is not negative: it is zero at best, where every target is certain.
pub proof fn law_loss_not_negative<T: Scalar>(rows: Seq<Seq<T>>, targets: Seq<u32>, n: nat)
    requires
        keeps_order::<T>(),
        n <= rows.len(),
        T::spec_zero().below_spec(
            one::<T>().over_spec(T::spec_count(1000000)).over_spec(T::spec_count(1000000)),
        ),
        one::<T>().over_spec(T::spec_count(1000000)).over_spec(
            T::spec_count(1000000),
        ).at_most_spec(one()),
        forall|t: int|
            0 <= t < n ==> T::spec_zero().at_most_spec(
                prob_row(#[trigger] rows[t])[targets[t] as int],
            ) && prob_row(rows[t])[targets[t] as int].at_most_spec(one()),
        forall|k: nat| k <= n ==> finite(#[trigger] loss_upto(rows, targets, k)),
    ensures
        T::spec_zero().at_most_spec(loss_upto(rows, targets, n)),
        0 < n == rows.len() && n <= usize::MAX ==> T::spec_zero().at_most_spec(
            mean_loss(rows, targets),
        ),
    decreases n,
{
    let zero = T::spec_zero();
    lemma_not_below(zero, zero);
    if n > 0 {
        let m = (n - 1) as nat;
        law_loss_not_negative(rows, targets, m);
        let before = loss_upto(rows, targets, m);
        assert(finite(before));
        let p = prob_row(rows[n - 1])[targets[n - 1] as int];
        assert(zero.at_most_spec(p));
        lemma_surprise(p);
        let l = floored_prob(p).ln_spec();
        lemma_minus(l, zero, before);
        lemma_minus(before, zero, before);
        lemma_chain(before, before.minus_spec(zero), before.minus_spec(l));
        lemma_chain(zero, before, before.minus_spec(l));
        if n == rows.len() && n <= usize::MAX {
            let c = T::spec_count(n as usize);
            lemma_positive_count::<T>(n as usize);
            assert(finite(loss_upto(rows, targets, n)));
            lemma_over(zero, loss_upto(rows, targets, n), c);
            lemma_chain(zero, zero.over_spec(c), mean_loss(rows, targets));
        }
    }
}

/// A model that gives the target of a position a higher probability has no higher loss there.
pub proof fn law_loss_rewards_probability<T: Scalar>(
    worse: Seq<T>,
    better: Seq<T>,
    target: u32,
)
    requires
        keeps_order::<T>(),
        T::spec_zero().below_spec(least_prob::<T>()),
        prob_row(worse)[target as int].at_most_spec(prob_row(better)[target as int]),
        finite(floored_prob(prob_row(worse)[target as int]).ln_spec()),
        finite(floored_prob(prob_row(better)[target as int]).ln_spec()),
        finite(loss_upto(seq![worse], seq![target], 1)),
        finite(loss_upto(seq![better], seq![target], 1)),
    ensures
        mean_loss(seq![better], seq![target]).at_most_spec(mean_loss(seq![worse], seq![target])),
{
    let zero = T::spec_zero();
    let p = prob_row(worse)[target as int];
    let q = prob_row(better)[target as int];
    let least = least_prob::<T>();
    lemma_not_below(p, q);
    lemma_not_below(zero, least);
    lemma_not_below(least, least);
    lemma_not_below(least, q);
    lemma_not_below(q, least);
    lemma_not_below(least, p);
    lemma_not_below(p, least);
    let a = floored_prob(p);
    let b = floored_prob(q);
    if least.at_most_spec(p) {
        lemma_chain(least, p, q);
        lemma_positive(least, p);
    }
    assert(zero.below_spec(a) && a.at_most_spec(b));
    lemma_ln(a, b);
    lemma_minus(a.ln_spec(), b.ln_spec(), zero);
    let (r1, r2, ts) = (seq![worse], seq![better], seq![target]);
    assert(r1[0] == worse && r2[0] == better && ts[0] == target);
    assert(loss_upto(r1, ts, 0) == zero && loss_upto(r2, ts, 0) == zero);
    assert(loss_upto(r1, ts, 1) == zero.minus_spec(a.ln_spec()));
    assert(loss_upto(r2, ts, 1) == zero.minus_spec(b.ln_spec()));
    lemma_positive_count::<T>(1);
    lemma_over(loss_upto(r2, ts, 1), loss_upto(r1, ts, 1), T::spec_count(1));
}

/// The gradient of the loss by the scores of a position adds up to nothing: what it takes from
/// the target it gives to the others.
pub proof fn law_score_gradient_balanced<T: Scalar>(
    rows: Seq<Seq<T>>,
    targets: Seq<u32>,
    t: int,
)
    requires
        computes_exactly::<T>(),
        0 <= t < rows.len(),
        targets[t] < rows[t].len(),
        sum_of(prob_row(rows[t]), rows[t].len()) == one::<T>(),
    ensures
        sum_of(logit_grads(rows, targets)[t], rows[t].len()) == T::spec_zero(),
{
    let zero = T::spec_zero();
    let n = rows[t].len();
    let p = prob_row(rows[t]);
    let g = logit_grads(rows, targets)[t];
    let count = T::spec_count(rows.len() as usize);
    let inv = one::<T>().over_spec(count);
    let no = zero.minus_spec(one::<T>());
    let k = targets[t] as int;
    // The gradient is the inverted count times (p - one at the target).
    let hit = Seq::new(
        n,
        |w: int|
            if w == k {
                no
            } else {
                zero
            },
    );
    let u = Seq::new(n, |w: int| p[w].plus_spec(hit[w]));
    assert forall|w: int| 0 <= w < n implies #[trigger] g[w] == inv.times_spec(u[w]) by {
        lemma_add(p[w], one::<T>(), zero);
        lemma_plus_zero(p[w]);
        lemma_div(u[w], count, 0);
        lemma_swap(u[w], inv);
    }
    lemma_sum_adds(p, hit, u, n);
    lemma_single_term(hit, k, n);
    lemma_opposite(one::<T>(), no);
    lemma_sum_scales(inv, u, g, n);
    lemma_mul(inv, inv, inv);
}

/// A step against the gradient raises the score of the target and lowers the others: the
/// gradient is not positive at the target and not negative elsewhere.
pub proof fn law_score_gradient_signs<T: Scalar>(
    rows: Seq<Seq<T>>,
    targets: Seq<u32>,
    t: int,
    w: int,
)
    requires
        keeps_order::<T>(),
        0 <= t < rows.len() <= usize::MAX,
        0 <= w < rows[t].len(),
        T::spec_zero().at_most_spec(prob_row(rows[t])[w]),
        prob_row(rows[t])[w].at_most_spec(one()),
        finite(prob_row(rows[t])[w].minus_spec(one())),
    ensures
        w == targets[t] ==> logit_grads(rows, targets)[t][w].at_most_spec(T::spec_zero()),
        w != targets[t] ==> T::spec_zero().at_most_spec(logit_grads(rows, targets)[t][w]),
{
    let zero = T::spec_zero();
    let p = prob_row(rows[t])[w];
    let n = T::spec_count(rows.len() as usize);
    let o = one::<T>();
    lemma_positive_count::<T>(rows.len() as usize);
    lemma_not_below(zero, o);
    lemma_between_finite(zero, p, o);
    if w == targets[t] {
        let d = p.minus_spec(o);
        lemma_minus(p, o, o);
        lemma_minus(o, o, o);
        lemma_chain(d, o.minus_spec(o), zero);
        lemma_over(d, zero, n);
        lemma_over(zero, zero, n);
        lemma_chain(d.over_spec(n), zero.over_spec(n), zero);
    } else {
        lemma_over(zero, p, n);
        lemma_chain(zero, zero.over_spec(n), p.over_spec(n));
    }
}

proof fn lemma_loss_is_sum<T: Scalar>(rows: Seq<Seq<T>>, targets: Seq<u32>, n: nat)
    requires
        computes_exactly::<T>(),
        n <= rows.len(),
    ensures
        loss_upto(rows, targets, n) == T::spec_zero().minus_spec(
            sum_of(logprobs_spec(rows, targets), n),
        ),
    decreases n,
{
    let zero = T::spec_zero();
    if n == 0 {
        lemma_div(zero, zero, 0);
    } else {
        let m = (n - 1) as nat;
        lemma_loss_is_sum(rows, targets, m);
        let l = logprobs_spec(rows, targets);
        let (s, x) = (sum_of(l, m), l[n - 1]);
        let (ns, nx) = (zero.minus_spec(s), zero.minus_spec(x));
        lemma_add(ns, x, x);
        // (s + x) + (-s + -x) is zero.
        lemma_opposite(s, ns);
        lemma_opposite(x, nx);
        lemma_add(s, x, ns.plus_spec(nx));
        lemma_add(ns, nx, nx);
        lemma_add(x, nx, ns);
        lemma_plus_zero(ns);
        lemma_opposite(s.plus_spec(x), ns.plus_spec(nx));
    }
}

/// The perplexity from the log-probabilities of the targets is the exponential of the mean
/// loss.
pub proof fn law_perplexity_of_loss<T: Scalar>(rows: Seq<Seq<T>>, targets: Seq<u32>)
    requires
        computes_exactly::<T>(),
        0 < rows.len() <= usize::MAX,
    ensures
        perplexity_spec(logprobs_spec(rows, targets)) == mean_loss(rows, targets).exp_spec(),
{
    let n = rows.len();
    let zero = T::spec_zero();
    let l = logprobs_spec(rows, targets);
    let s = sum_of(l, n);
    let c = T::spec_count(n as usize);
    let inv = one::<T>().over_spec(c);
    lemma_loss_is_sum(rows, targets, n);
    lemma_div(zero.minus_spec(s), c, 0);
    lemma_div(s, c, 0);
    lemma_div(s.over_spec(c), c, 0);
    lemma_negative_factor(inv, s);
}

/// Sums of numbers that are not lower are not lower.
proof fn lemma_sums_in_order<T: Scalar>(a: Seq<T>, b: Seq<T>, n: nat)
    requires
        keeps_order::<T>(),
        n <= a.len(),
        n <= b.len(),
        forall|i: int|
            0 <= i < n ==> (#[trigger] a[i]).at_most_spec(b[i]) && finite(a[i]) && finite(b[i]),
        forall|k: nat| k <= n ==> finite(#[trigger] sum_of(a, k)),
        forall|k: nat| k <= n ==> finite(#[trigger] sum_of(b, k)),
    ensures
        sum_of(a, n).at_most_spec(sum_of(b, n)),
    decreases n,
{
    lemma_not_below(T::spec_zero(), T::spec_zero());
    if n > 0 {
        let m = (n - 1) as nat;
        lemma_sums_in_order(a, b, m);
        let (s, t) = (sum_of(a, m), sum_of(b, m));
        assert(finite(s) && finite(t));
        assert(a[n - 1].at_most_spec(b[n - 1]));
        lemma_plus(s, t, a[n - 1]);
        lemma_plus(a[n - 1], b[n - 1], t);
        lemma_chain(sum_of(a, n), t.plus_spec(a[n - 1]), sum_of(b, n));
    }
}

/// Higher losses never give a lower perplexity.
pub proof fn law_perplexity_grows<T: Scalar>(a: Seq<T>, b: Seq<T>)
    requires
        keeps_order::<T>(),
        0 < a.len() <= usize::MAX,
        b.len() == a.len(),
        forall|i: int|
            0 <= i < a.len() ==> (#[trigger] a[i]).at_most_spec(b[i]) && finite(a[i]) && finite(
                b[i],
            ),
        forall|k: nat| k <= a.len() ==> finite(#[trigger] sum_of(a, k)),
        forall|k: nat| k <= a.len() ==> finite(#[trigger] sum_of(b, k)),
    ensures
        ppl_of(a).at_most_spec(ppl_of(b)),
{
    let n = a.len();
    let c = T::spec_count(n as usize);
    lemma_sums_in_order(a, b, n);
    lemma_positive_count::<T>(n as usize);
    assert(finite(sum_of(a, n)) && finite(sum_of(b, n)));
    lemma_over(sum_of(a, n), sum_of(b, n), c);
    lemma_exp(sum_of(a, n).over_spec(c), sum_of(b, n).over_spec(c));
}

/// The perplexity for losses that are not negative is one at least.
pub proof fn law_perplexity_at_least_one<T: Scalar>(losses: Seq<T>)
    requires
        keeps_order::<T>(),
        0 < losses.len() <= usize::MAX,
        forall|i: int| 0 <= i < losses.len() ==> T::spec_zero().at_most_spec(#[trigger] losses[i]),
        finite(sum_of(losses, losses.len())),
    ensures
        one::<T>().at_most_spec(ppl_of(losses)),
{
    let zero = T::spec_zero();
    let n = losses.len();
    let c = T::spec_count(n as usize);
    lemma_sum_bounds(losses, n);
    lemma_positive_count::<T>(n as usize);
    lemma_not_below(zero, zero);
    let s = sum_of(losses, n);
    lemma_over(zero, s, c);
    let m = s.over_spec(c);
    lemma_chain(zero, zero.over_spec(c), m);
    lemma_exp(zero, m);
    lemma_exp(zero, zero);
    lemma_chain(one::<T>(), zero.exp_spec(), m.exp_spec());
}

/// No probability counts as less than one in a million millions, and higher ones count as they
/// are.
pub proof fn law_probability_floor<T: Scalar>(p: T)
    requires
        keeps_order::<T>(),
        computes_exactly::<T>(),
        p.at_most_spec(p),
    ensures
        ({
            let million = T::spec_count(1000000);
            let r = floored_prob(p);
            &&& p.at_most_spec(r) || r == p
            &&& r == p || r.times_spec(million).times_spec(million) == one::<T>()
            &&& r == p <== one::<T>().over_spec(million).over_spec(million).at_most_spec(p)
        }),
{
    let million = T::spec_count(1000000);
    let o = one::<T>();
    lemma_count_quotient(o.over_spec(million), 1000000);
    lemma_count_quotient(o, 1000000);
    if !least_prob::<T>().at_most_spec(p) {
        lemma_positive_count::<T>(1000000);
        lemma_not_below(T::spec_zero(), million);
        lemma_positive_quotients(p);
    }
}

/// What is not at least the least probability is at most that.
proof fn lemma_positive_quotients<T: Scalar>(p: T)
    requires
        keeps_order::<T>(),
        p.at_most_spec(p),
    ensures
        least_prob::<T>().at_most_spec(p) || p.at_most_spec(least_prob()),
{
    let million = T::spec_count(1000000);
    let o = one::<T>();
    let zero = T::spec_zero();
    let x = o.over_spec(million);
    lemma_positive_count::<T>(1000000);
    lemma_not_below(zero, o);
    lemma_inverse(million);
    lemma_between_finite(zero, x, o);
    lemma_over(x, x, million);
    lemma_not_below(x, x);
    lemma_not_below(least_prob::<T>(), p);
    lemma_not_below(p, least_prob::<T>());
}

/// The gradient of a score is the probability of its token, less one for the token that came,
/// shared among the positions.
pub proof fn law_score_gradient_is_error<T: Scalar>(
    logits: Seq<Seq<T>>,
    targets: Seq<u32>,
    t: int,
    w: int,
)
    requires
        computes_exactly::<T>(),
        0 <= t < logits.len() <= usize::MAX,
        0 <= w < logits[t].len(),
    ensures
        ({
            let g = logit_grads(logits, targets)[t][w].times_spec(
                T::spec_count(logits.len() as usize),
            );
            &&& targets[t] != w ==> g == prob_row(logits[t])[w]
            &&& targets[t] == w ==> g.plus_spec(one()) == prob_row(logits[t])[w]
        }),
{
    let p = prob_row(logits[t])[w];
    let o = one::<T>();
    let no = T::spec_zero().minus_spec(o);
    lemma_count_quotient(p, logits.len() as usize);
    lemma_count_quotient(p.minus_spec(o), logits.len() as usize);
    lemma_add(p, o, o);
    lemma_add(p, no, o);
    lemma_add(no, o, o);
    lemma_opposite(o, no);
    lemma_plus_zero(p);
}

/// The mean loss is a mean: as often as there are positions, it makes up for the logarithms of the
/// probabilities of the targets.
pub proof fn law_loss_is_mean<T: Scalar>(rows: Seq<Seq<T>>, targets: Seq<u32>)
    requires
        computes_exactly::<T>(),
        0 < rows.len() <= usize::MAX,
    ensures
        mean_loss(rows, targets).times_spec(T::spec_count(rows.len() as usize)).plus_spec(
            sum_of(
                Seq::new(
                    rows.len(),
                    |t: int| floored_prob(prob_row(rows[t])[targets[t] as int]).ln_spec(),
                ),
                rows.len(),
            ),
        ) == T::spec_zero(),
{
    let n = rows.len();
    let l = logprobs_spec(rows, targets);
    let s = sum_of(l, n);
    let ns = T::spec_zero().minus_spec(s);
    lemma_loss_is_sum(rows, targets, n);
    lemma_count_quotient(loss_upto(rows, targets, n), n as usize);
    lemma_opposite(s, ns);
    lemma_add(s, ns, ns);
    assert(l =~= Seq::new(
        n,
        |t: int| floored_prob(prob_row(rows[t])[targets[t] as int]).ln_spec(),
    ));
}

/// Where the loss is the same over all windows, the perplexity is its exponential, however many
/// windows there are.
pub proof fn law_perplexity_of_even_losses<T: Scalar>(losses: Seq<T>, c: T)
    requires
        computes_exactly::<T>(),
        0 < losses.len() <= usize::MAX,
        forall|i: int| 0 <= i < losses.len() ==> #[trigger] losses[i] == c,
    ensures
        ppl_of(losses) == c.exp_spec(),
        perplexity_spec(losses) == c.negated_spec().exp_spec(),
{
    lemma_constant_sum(losses, c, losses.len());
    lemma_count_quotient(c, losses.len() as usize);
}

} // verus!
