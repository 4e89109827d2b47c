//! What the steps of a transmutation keep of the weights.

use vstd::prelude::*;
use crate::autograd::column;
use crate::calibration::{
    column_means, part_inputs, window_at, window_count, window_len, window_step, Part,
};
use crate::cluster::{
    assigned_clusters, best_centers, best_upto, cluster_centers, derived_experts, expert_count,
    is_clustering, matches_with, rows_per_expert, unit, unit_rows, ClusterConfig, ClusterResult,
};
use crate::config::Config;
use crate::exact::{
    computes_exactly, lemma_constant_sum, lemma_count_adds, lemma_count_quotient, lemma_div,
    lemma_mul, lemma_swap,
};
use crate::kernel::lemma_plus_zero;
use crate::order::{
    compares, finite, keeps_order, lemma_between_finite, lemma_chain, lemma_minus, lemma_negated,
    lemma_not_below, lemma_over, lemma_positive_count, lemma_sum_bounds, lemma_times, unity,
};
use crate::outlier::{core_size, is_outlier_split, row_norms, squares, OutlierConfig, OutlierResult};
use crate::pq::{means, member_sum, members_upto};
use crate::quantize::{magnitudes, reconstructed, row_codes, row_scale, row_threshold, ternary_code};
use crate::reconstruction::multiplies_exactly;
use crate::rng::{low_half, state_after, unit_interval};
use crate::scalar::{comparable, dot_spec, products, sum_of, Scalar};
use crate::sorting::item_before;
use crate::sparse::{expert_rows, expert_rows_sum, MicroExpert, SparseLayer};
use crate::tensor::Matrix;
use crate::toy_lm::{
    attended, has_shape, hidden, layer_random, layer_state, weights_fit, xavier_scale, xavier_spec,
    ToyLm, ToyLmWeights,
};
use crate::transformer::{added_rows, applied_rows, gelu_rows, norm_rows, one, two};
use crate::transmuter::normalized;

verus! {

/// A row in which all weights have the same magnitude loses nothing: quantised and put together
/// again it is what it was.
pub proof fn law_even_rows_survive<T: Scalar>(row: Seq<T>, m: T)
    requires
        computes_exactly::<T>(),
        0 < row.len() <= usize::MAX,
        forall|i: int|
            0 <= i < row.len() ==> (#[trigger] row[i]).magnitude_spec() == m && row[i] == if
                T::spec_zero().at_most_spec(row[i]) {
                m
            } else {
                T::spec_zero().minus_spec(m)
            },
        T::spec_count(1).over_spec(T::spec_count(2)).times_spec(m).below_spec(m),
    ensures
        row_scale(row) == m,
        reconstructed(row_codes(row), row_scale(row)) == row,
{
    let n = row.len();
    let zero = T::spec_zero();
    let mags = magnitudes(row);
    assert forall|i: int| 0 <= i < n implies #[trigger] mags[i] == m by {
        assert(row[i].magnitude_spec() == m);
    }
    lemma_constant_sum(mags, m, n);
    lemma_count_quotient(m, n as usize);
    assert(row_scale(row) == m);
    let back = reconstructed(row_codes(row), m);
    assert forall|i: int| 0 <= i < n implies back[i] == row[i] by {
        assert(row[i].magnitude_spec() == m);
        let c = row_codes(row)[i];
        assert(back[i] == m.times_spec(T::spec_code(c)));
        assert(c == 1 || c == -1);
        lemma_codes(m);
    }
    assert(back =~= row);
}

/// The codes one and minus one as factors.
proof fn lemma_codes<T: Scalar>(m: T)
    requires
        computes_exactly::<T>(),
    ensures
        m.times_spec(T::spec_code(1)) == m,
        m.times_spec(T::spec_code(-1i8)) == T::spec_zero().minus_spec(m),
{
    lemma_swap(m, T::spec_code(1));
    lemma_swap(m, T::spec_code(-1i8));
    reveal(multiplies_exactly);
}

/// A row divided by its scale and multiplied with it again is what it was, unless its scale is
/// too small to divide by.
pub proof fn law_normalized_rows_scale_back<T: Scalar>(row: Seq<T>, i: int)
    requires
        computes_exactly::<T>(),
        0 <= i < row.len(),
        T::spec_count(1).over_spec(T::spec_count(100000000)).at_most_spec(row_scale(row)),
        row_scale(row).times_spec(one::<T>().over_spec(row_scale(row))) == one::<T>(),
    ensures
        row_scale(row).times_spec(normalized(row)[i]) == row[i],
{
    let s = row_scale(row);
    let inv = one::<T>().over_spec(s);
    lemma_div(row[i], s, 0);
    lemma_swap(row[i], inv);
    lemma_mul(s, inv, row[i]);
    lemma_div(row[i], row[i], 0);
}

/// The scale of a row is not negative.
pub proof fn law_scale_not_negative<T: Scalar>(row: Seq<T>)
    requires
        keeps_order::<T>(),
        0 < row.len() <= usize::MAX,
        forall|i: int|
            0 <= i < row.len() ==> T::spec_zero().at_most_spec(
                (#[trigger] row[i]).magnitude_spec(),
            ),
        finite(sum_of(magnitudes(row), row.len())),
    ensures
        T::spec_zero().at_most_spec(row_scale(row)),
{
    let zero = T::spec_zero();
    let mags = magnitudes(row);
    let n = T::spec_count(row.len() as usize);
    assert forall|i: int| 0 <= i < row.len() implies zero.at_most_spec(#[trigger] mags[i]) by {
        assert(zero.at_most_spec(row[i].magnitude_spec()));
    }
    lemma_sum_bounds(mags, row.len());
    lemma_positive_count::<T>(row.len() as usize);
    lemma_not_below(zero, zero);
    lemma_over(zero, sum_of(mags, row.len()), n);
    lemma_chain(zero, zero.over_spec(n), row_scale(row));
}

/// The mean of rows that are all the same is that row.
pub proof fn law_mean_of_equal_rows<T: Scalar>(rows: Seq<Seq<T>>, x: Seq<T>)
    requires
        computes_exactly::<T>(),
        0 < rows.len() <= usize::MAX,
        forall|i: int| 0 <= i < rows.len() ==> #[trigger] rows[i] == x,
    ensures
        column_means(rows, x.len()) == x,
{
    let n = rows.len();
    assert forall|j: int| 0 <= j < x.len() implies column_means(rows, x.len())[j] == x[j] by {
        let c = column(rows, j);
        assert forall|i: int| 0 <= i < n implies #[trigger] c[i] == x[j] by {
            assert(rows[i] == x);
        }
        lemma_constant_sum(c, x[j], n);
        lemma_count_quotient(x[j], n as usize);
    }
    assert(column_means(rows, x.len()) =~= x);
}

/// The mean of rows, as often as there are rows, is their sum.
pub proof fn law_mean_times_count<T: Scalar>(rows: Seq<Seq<T>>, cols: nat, j: int)
    requires
        computes_exactly::<T>(),
        0 < rows.len() <= usize::MAX,
        0 <= j < cols,
    ensures
        column_means(rows, cols)[j].times_spec(T::spec_count(rows.len() as usize)) == sum_of(
            rows.map_values(|r: Seq<T>| r[j]),
            rows.len(),
        ),
{
    lemma_count_quotient(sum_of(column(rows, j), rows.len()), rows.len() as usize);
    assert(column(rows, j) =~= rows.map_values(|r: Seq<T>| r[j]));
}

/// What is collected for calibration is what the matrices are applied to in the forward pass:
/// each matrix, applied to its inputs, gives what the pass goes on with.
pub proof fn law_calibration_inputs<T: Scalar>(lm: ToyLm<T>, tokens: Seq<u32>, l: int)
    requires
        0 <= l < lm.config.num_layers,
    ensures
        ({
            let w = lm.weights;
            let c = lm.config;
            let x = hidden(w, c, tokens, l as nat);
            let middle = added_rows(
                x,
                applied_rows(w.attn_out@[l], part_inputs(lm, tokens, l, Part::AttnOut)),
            );
            &&& part_inputs(lm, tokens, l, Part::Qkv) == norm_rows(x, w.ln1_gain@[l]@)
            &&& part_inputs(lm, tokens, l, Part::FfUp) == norm_rows(middle, w.ln2_gain@[l]@)
            &&& part_inputs(lm, tokens, l, Part::AttnOut) == attended(
                applied_rows(w.qkv@[l], part_inputs(lm, tokens, l, Part::Qkv)),
                c.dim as int,
                c.num_heads as int,
            )
            &&& part_inputs(lm, tokens, l, Part::FfDown) == gelu_rows(
                applied_rows(w.ff_up@[l], part_inputs(lm, tokens, l, Part::FfUp)),
            )
            &&& hidden(w, c, tokens, (l + 1) as nat) == added_rows(
                middle,
                applied_rows(w.ff_down@[l], part_inputs(lm, tokens, l, Part::FfDown)),
            )
        }),
{
}

/// The calibration windows lie within the tokens, each begins half a length behind the one
/// before, and no further one would fit.
pub proof fn law_calibration_windows(max_seq_len: int, ids: Seq<u32>, k: int)
    requires
        0 <= max_seq_len,
        0 <= k < window_count(max_seq_len, ids.len() as int),
    ensures
        ({
            let len = window_len(max_seq_len, ids.len() as int);
            let step = len / 2;
            &&& 2 <= len < ids.len()
            &&& window_at(max_seq_len, ids, k).len() == len
            &&& forall|i: int|
                0 <= i < len ==> #[trigger] window_at(max_seq_len, ids, k)[i] == ids[k * step + i]
            &&& (window_count(max_seq_len, ids.len() as int) - 1) * step + len <= ids.len()
            &&& window_count(max_seq_len, ids.len() as int) * step + len > ids.len()
        }),
{
    let n = ids.len() as int;
    let len = window_len(max_seq_len, n);
    let step = len / 2;
    assert(step >= 1 && window_step(len) == step);
    let count = window_count(max_seq_len, n);
    let last = (n - len) / step;
    vstd::arithmetic::div_mod::lemma_fundamental_div_mod(n - len, step);
    vstd::arithmetic::div_mod::lemma_mod_bound(n - len, step);
    assert(count == last + 1);
    assert(last * step == step * last) by (nonlinear_arith);
    assert((last + 1) * step == last * step + step) by (nonlinear_arith);
    assert(k * step <= last * step) by (nonlinear_arith)
        requires
            k <= last,
            step >= 1,
    ;
    assert(0 <= k * step) by (nonlinear_arith)
        requires
            0 <= k,
            step >= 1,
    ;
}

proof fn lemma_best<T: Scalar>(s: Seq<T>, n: nat)
    requires
        n <= s.len(),
    ensures
        forall|i: int| 0 <= i < n ==> !best_upto(s, n).1.below_spec(#[trigger] s[i]),
        best_upto(s, n) == (0int, T::spec_lowest()) || (0 <= best_upto(s, n).0 < n
            && best_upto(s, n).1 == s[best_upto(s, n).0]),
    decreases n,
{
    if n > 0 {
        lemma_best(s, (n - 1) as nat);
        let b = best_upto(s, (n - 1) as nat);
        let x = s[n - 1];
        x.below_irreflexive();
        assert forall|i: int| 0 <= i < n implies !best_upto(s, n).1.below_spec(#[trigger] s[i]) by {
            if b.1.below_spec(x) && i < n - 1 && x.below_spec(s[i]) {
                b.1.below_transitive(x, s[i]);
            }
        }
    }
}

/// A row joins the cluster whose centroid points its way best: no other centroid has a higher
/// inner product with the row's direction.
pub proof fn law_rows_join_best_centroid<T: Scalar>(
    w: Matrix<T>,
    cfg: ClusterConfig,
    res: ClusterResult<T>,
    i: int,
    c: int,
)
    requires
        is_clustering(w, cfg, res),
        0 <= i < w.rows,
        0 <= c < res.centroids.rows,
    ensures
        !dot_spec(
            unit(w.row_seq(i)),
            res.centroids.row_seq(res.assignment@[i] as int),
        ).below_spec(dot_spec(unit(w.row_seq(i)), res.centroids.row_seq(c))),
{
    let centers = cluster_centers(w, cfg);
    let p = unit(w.row_seq(i));
    let s = matches_with(p, centers);
    let n = centers.len();
    lemma_best(s, n);
    let b = best_upto(s, n);
    assert(assigned_clusters(res)[i] == best_centers(unit_rows(w), centers)[i]);
    assert(res.assignment@[i] as int == b.0);
    let a = res.assignment@[i] as int;
    assert(res.centroids.row_seq(a) == centers[a]);
    assert(res.centroids.row_seq(c) == centers[c]);
    assert(!b.1.below_spec(s[c]));
    if s[a].below_spec(s[c]) {
        s[a].lowest_is_least(s[c]);
    }
}

/// The core keeps the longest rows: no row outside it is longer than one inside, where length
/// is the root of the sum of the squares.
pub proof fn law_core_has_longest_rows<T: Scalar>(
    w: Matrix<T>,
    cfg: OutlierConfig<T>,
    o: OutlierResult<T>,
    i: int,
    j: int,
)
    requires
        is_outlier_split(w, cfg, o),
        comparable(row_norms(w)),
        0 <= i < o.core_row_ids@.len(),
        0 <= j < o.residual_row_ids@.len(),
    ensures
        ({
            let a = w.row_seq(o.core_row_ids@[i] as int);
            let b = w.row_seq(o.residual_row_ids@[j] as int);
            !dot_spec(a, a).root_spec().below_spec(dot_spec(b, b).root_spec())
        }),
{
    let p = o.core_row_ids@[i] as int;
    let q = o.residual_row_ids@[j] as int;
    let a = w.row_seq(p);
    let b = w.row_seq(q);
    assert(products(a, a) =~= squares(a));
    assert(products(b, b) =~= squares(b));
    let norms = row_norms(w);
    assert(norms[p] == dot_spec(a, a).root_spec());
    assert(norms[q] == dot_spec(b, b).root_spec());
    assert(item_before(norms, p, q, true));
    if norms[p].below_spec(norms[q]) && norms[q].below_spec(norms[p]) {
        norms[p].below_transitive(norms[q], norms[p]);
        norms[p].below_irreflexive();
    }
}

proof fn lemma_member_sum<T: Scalar>(
    points: Seq<Seq<T>>,
    assignment: Seq<int>,
    c: int,
    j: int,
    n: nat,
    x: T,
)
    requires
        computes_exactly::<T>(),
        n <= points.len(),
        n <= usize::MAX,
        forall|i: int| 0 <= i < n && assignment[i] == c ==> (#[trigger] points[i])[j] == x,
    ensures
        members_upto(assignment, c, n) <= n,
        member_sum(points, assignment, c, j, n) == T::spec_count(
            members_upto(assignment, c, n) as usize,
        ).times_spec(x),
    decreases n,
{
    lemma_div(x, x, 0);
    lemma_swap(T::spec_zero(), x);
    lemma_mul(x, x, x);
    if n > 0 {
        lemma_member_sum(points, assignment, c, j, (n - 1) as nat, x);
        let m = members_upto(assignment, c, (n - 1) as nat) as usize;
        if assignment[n - 1] == c {
            assert(points[n - 1][j] == x);
            lemma_div(x, x, m);
            let k = T::spec_count(m);
            lemma_swap(k.plus_spec(one()), x);
            lemma_mul(x, k, one());
            lemma_swap(x, k);
            lemma_swap(x, one::<T>());
        }
    }
}

/// The centroid of k-means is the mean of its members: where all of them have the same number
/// in a coordinate, so has the centroid.
pub proof fn law_centroid_is_mean<T: Scalar>(
    points: Seq<Seq<T>>,
    assignment: Seq<int>,
    centers: Seq<Seq<T>>,
    dim: nat,
    c: int,
    j: int,
    x: T,
)
    requires
        computes_exactly::<T>(),
        points.len() <= usize::MAX,
        0 <= c < centers.len(),
        0 <= j < dim,
        members_upto(assignment, c, points.len()) > 0,
        forall|i: int|
            0 <= i < points.len() && assignment[i] == c ==> (#[trigger] points[i])[j] == x,
    ensures
        means(points, assignment, centers, dim)[c][j] == x,
{
    lemma_member_sum(points, assignment, c, j, points.len(), x);
    lemma_count_quotient(x, members_upto(assignment, c, points.len()) as usize);
}

/// Random weights lie within their scale, on both sides of zero.
pub proof fn law_random_weights_bounded<T: Scalar>(n: nat, fan_in: nat, x: u64, i: int)
    requires
        keeps_order::<T>(),
        0 <= i < n,
        finite(xavier_scale::<T>(fan_in)),
        T::spec_zero().at_most_spec(xavier_scale::<T>(fan_in)),
        finite(one::<T>().times_spec(two())),
        unity(one::<T>().times_spec(two()).minus_spec(one())),
        one::<T>().negated_spec().at_most_spec(
            T::spec_zero().times_spec(two()).minus_spec(one()),
        ),
    ensures
        one::<T>().negated_spec().times_spec(xavier_scale::<T>(fan_in)).at_most_spec(
            xavier_spec::<T>(n, fan_in, x)[i],
        ),
        xavier_spec::<T>(n, fan_in, x)[i].at_most_spec(
            one::<T>().times_spec(xavier_scale::<T>(fan_in)),
        ),
{
    let zero = T::spec_zero();
    let o = one::<T>();
    let s = xavier_scale::<T>(fan_in);
    let state = state_after(x, (i + 1) as nat);
    let u = unit_interval::<T>(state);
    T::word_over_words(low_half(state));
    T::word_over_words(0xffff_ff00);
    assert(zero.at_most_spec(u) && u.below_spec(o));
    lemma_not_below(zero, o);
    lemma_not_below(u, o);
    lemma_between_finite(zero, u, o);
    lemma_positive_count::<T>(2);
    lemma_not_below(zero, two::<T>());
    lemma_times(zero, u, two::<T>());
    lemma_times(u, o, two::<T>());
    let (a, b, c) = (zero.times_spec(two()), u.times_spec(two()), o.times_spec(two::<T>()));
    lemma_minus(a, b, o);
    lemma_minus(b, c, o);
    let d = b.minus_spec(o);
    lemma_chain(o.negated_spec(), a.minus_spec(o), d);
    lemma_chain(d, c.minus_spec(o), o);
    lemma_negated(o, o);
    lemma_between_finite(o.negated_spec(), d, o);
    lemma_times(o.negated_spec(), d, s);
    lemma_times(d, o, s);
}

/// The scale of random weights shrinks with the number of inputs: its square, as often as there
/// are inputs, is two.
pub proof fn law_random_scale<T: Scalar>(fan_in: usize)
    requires
        computes_exactly::<T>(),
        fan_in > 0,
        ({
            let v = T::spec_count(2).over_spec(T::spec_count(fan_in));
            v.root_spec().times_spec(v.root_spec()) == v
        }),
    ensures
        xavier_scale::<T>(fan_in as nat).times_spec(xavier_scale::<T>(fan_in as nat)).times_spec(
            T::spec_count(fan_in),
        ) == T::spec_count(2),
{
    lemma_count_quotient(T::spec_count(2), fan_in);
}

proof fn lemma_count_times<T: Scalar>(a: usize, b: usize)
    requires
        computes_exactly::<T>(),
        a * b <= usize::MAX,
    ensures
        T::spec_count((a * b) as usize) == T::spec_count(a).times_spec(T::spec_count(b)),
    decreases a,
{
    let k = T::spec_count(b);
    lemma_div(k, k, 0);
    if a == 0 {
        assert(a * b == 0) by (nonlinear_arith)
            requires
                a == 0,
        ;
        lemma_swap(T::spec_zero(), k);
        lemma_mul(k, k, k);
    } else {
        let c = (a - 1) as usize;
        assert(a * b == c * b + b) by (nonlinear_arith)
            requires
                a == c + 1,
        ;
        assert(c * b >= 0) by (nonlinear_arith);
        lemma_count_times::<T>(c, b);
        lemma_count_adds::<T>((c * b) as usize, b);
        lemma_div(k, k, c);
        let m = T::spec_count(c);
        lemma_swap(m.plus_spec(one()), k);
        lemma_mul(k, m, one());
        lemma_swap(k, m);
        lemma_swap(k, one::<T>());
    }
}

proof fn lemma_rows_counted<T: Scalar>(experts: Seq<MicroExpert<T>>, n: nat)
    requires
        computes_exactly::<T>(),
        n <= experts.len(),
        expert_rows(experts, n) <= usize::MAX,
    ensures
        expert_rows_sum(experts, n) == T::spec_count(expert_rows(experts, n) as usize),
    decreases n,
{
    lemma_div(one::<T>(), one::<T>(), 0);
    if n > 0 {
        lemma_rows_counted(experts, (n - 1) as nat);
        lemma_count_adds::<T>(
            expert_rows(experts, (n - 1) as nat) as usize,
            experts[n - 1].row_ids@.len() as usize,
        );
    }
}

/// With every expert on, all of a layer's weights are active, if the core and the experts cover
/// all rows.
pub proof fn law_all_weights_active<T: Scalar>(sl: SparseLayer<T>)
    requires
        computes_exactly::<T>(),
        sl.covered() == sl.out_dim,
        sl.experts@.len() > 0,
        sl.experts@.len() <= usize::MAX,
        0 < sl.out_dim * sl.in_dim <= usize::MAX,
        sl.core_row_ids@.len() * sl.in_dim <= usize::MAX,
    ensures
        sl.active_share(T::spec_count(sl.experts@.len() as usize)) == one::<T>(),
{
    let n = sl.experts@.len() as usize;
    let c = sl.core_row_ids@.len() as usize;
    let e = expert_rows(sl.experts@, sl.experts@.len());
    let d = sl.in_dim;
    assert(c + e == sl.out_dim);
    lemma_rows_counted(sl.experts@, sl.experts@.len());
    let rows = T::spec_count(e as usize);
    let k = T::spec_count(n);
    lemma_div(k, k, n);
    assert(k.over_spec(k) == one::<T>());
    lemma_swap(rows, one::<T>());
    lemma_div(rows, rows, 0);
    assert(c * d + e * d == sl.out_dim * d) by (nonlinear_arith)
        requires
            c + e == sl.out_dim,
    ;
    assert(c * d >= 0 && e * d >= 0) by (nonlinear_arith);
    lemma_count_times::<T>(e as usize, d);
    lemma_count_adds::<T>((c * d) as usize, (e * d) as usize);
    let all = T::spec_count((sl.out_dim * d) as usize);
    lemma_div(all, all, (sl.out_dim * d) as usize);
}

/// With every expert off, the share of a layer's weights that is active is that of the core.
pub proof fn law_core_stays_active<T: Scalar>(sl: SparseLayer<T>)
    requires
        computes_exactly::<T>(),
        0 < sl.out_dim * sl.in_dim <= usize::MAX,
        sl.core_row_ids@.len() * sl.in_dim <= usize::MAX,
    ensures
        sl.active_share(T::spec_zero()) == T::spec_count(
            (sl.core_row_ids@.len() * sl.in_dim) as usize,
        ).over_spec(T::spec_count((sl.out_dim * sl.in_dim) as usize)),
{
    let zero = T::spec_zero();
    let n = if sl.experts@.len() == 0 {
        1
    } else {
        sl.experts@.len()
    };
    let k = T::spec_count(n as usize);
    let rows = expert_rows_sum(sl.experts@, sl.experts@.len());
    let d = T::spec_count(sl.in_dim);
    lemma_div(zero, k, 0);
    lemma_swap(zero, one::<T>().over_spec(k));
    lemma_mul(one::<T>().over_spec(k), k, k);
    lemma_mul(rows, k, k);
    lemma_swap(zero, d);
    lemma_mul(d, k, k);
    let core = T::spec_count((sl.core_row_ids@.len() * sl.in_dim) as usize);
    lemma_plus_zero(core);
}

/// The codes of weights are in the order of the weights, and follow their signs.
pub proof fn law_codes_in_order<T: Scalar>(a: T, b: T, threshold: T)
    requires
        keeps_order::<T>(),
        a.at_most_spec(b),
        T::spec_zero().at_most_spec(threshold),
        forall|x: T|
            T::spec_zero().at_most_spec(x) ==> x.at_most_spec(#[trigger] x.magnitude_spec())
                && x.magnitude_spec().at_most_spec(x),
        forall|x: T|
            x.at_most_spec(T::spec_zero()) ==> x.negated_spec().at_most_spec(
                #[trigger] x.magnitude_spec(),
            ) && x.magnitude_spec().at_most_spec(x.negated_spec()),
    ensures
        ternary_code(a, threshold) <= ternary_code(b, threshold),
        -1 <= ternary_code(a, threshold) <= 1,
        ternary_code(a, threshold) > 0 ==> T::spec_zero().at_most_spec(a),
        ternary_code(a, threshold) < 0 ==> a.at_most_spec(T::spec_zero()),
        ternary_code(a, threshold) == 0 <==> !threshold.below_spec(a.magnitude_spec()),
{
    let zero = T::spec_zero();
    let (x, y) = (a.magnitude_spec(), b.magnitude_spec());
    lemma_not_below(a, b);
    lemma_not_below(zero, a);
    lemma_not_below(a, zero);
    lemma_not_below(zero, b);
    lemma_not_below(b, zero);
    lemma_either_order(zero, a);
    lemma_either_order(zero, b);
    if zero.at_most_spec(a) {
        lemma_chain(zero, a, b);
        lemma_chain(x, a, b);
        lemma_chain(x, b, y);
        lemma_below_chain(threshold, x, y);
    }
    if b.at_most_spec(zero) {
        lemma_chain(a, b, zero);
        lemma_negated(a, b);
        lemma_chain(y, b.negated_spec(), a.negated_spec());
        lemma_chain(y, a.negated_spec(), x);
        lemma_below_chain(threshold, y, x);
    }
}

/// Of two numbers one is at most the other.
proof fn lemma_either_order<T: Scalar>(a: T, b: T)
    requires
        keeps_order::<T>(),
        a.at_most_spec(a),
        b.at_most_spec(b),
    ensures
        a.at_most_spec(b) || b.at_most_spec(a),
{
    lemma_not_below(a, b);
    lemma_not_below(b, a);
}

/// What is below a number is below what is not less.
proof fn lemma_below_chain<T: Scalar>(a: T, b: T, c: T)
    requires
        keeps_order::<T>(),
        b.at_most_spec(c),
    ensures
        a.below_spec(b) ==> a.below_spec(c),
{
    reveal(compares);
}

/// The threshold of a row is half the mean of the magnitudes of its weights.
pub proof fn law_threshold_is_half_the_mean<T: Scalar>(row: Seq<T>)
    requires
        computes_exactly::<T>(),
        0 < row.len() <= usize::MAX,
        two::<T>() == one::<T>().plus_spec(one::<T>()),
    ensures
        row_threshold(row).plus_spec(row_threshold(row)) == row_scale(row),
        row_scale(row).times_spec(T::spec_count(row.len() as usize)) == sum_of(
            magnitudes(row),
            row.len(),
        ),
{
    let o = one::<T>();
    let h = o.over_spec(two::<T>());
    let s = row_scale(row);
    lemma_count_quotient(sum_of(magnitudes(row), row.len()), row.len() as usize);
    // Two halves make one.
    lemma_div(o, o, 2);
    lemma_swap(two::<T>(), h);
    lemma_mul(h, o, o);
    lemma_swap(h, o);
    lemma_div(h, h, 0);
    assert(h.plus_spec(h) == o);
    lemma_swap(h, s);
    lemma_mul(s, h, h);
    lemma_swap(s, o);
    lemma_div(s, s, 0);
}

/// An expert takes as many rows as fit into sixty-four kibibytes of four-byte weights, but at
/// least one, and there are as many experts as it takes for all rows.
pub proof fn law_experts_fill_their_size(rows: nat, cols: nat)
    requires
        cols > 0,
        rows > 0,
    ensures
        ({
            let r = rows_per_expert(cols as int);
            let n = derived_experts(rows as int, cols as int);
            &&& r >= 1
            &&& r == 1 || r * (4 * cols) <= 64 * 1024
            &&& (r + 1) * (4 * cols) > 64 * 1024
            &&& n * r >= rows
            &&& (n - 1) * r < rows
        }),
{
    let size = 4 * cols as int;
    let r = rows_per_expert(cols as int);
    if 65536 >= size {
        vstd::arithmetic::div_mod::lemma_fundamental_div_mod(65536, size);
        vstd::arithmetic::div_mod::lemma_mod_bound(65536, size);
        assert(r * size == size * r) by (nonlinear_arith);
        assert((r + 1) * size == r * size + size) by (nonlinear_arith);
        assert(r >= 1) by (nonlinear_arith)
            requires
                r * size + size > 65536,
                65536 >= size,
                size > 0,
        ;
    } else {
        assert((r + 1) * size > 65536) by (nonlinear_arith)
            requires
                r == 1,
                size > 65536,
        ;
    }
    let n = derived_experts(rows as int, cols as int);
    let x = rows + r - 1;
    vstd::arithmetic::div_mod::lemma_fundamental_div_mod(x, r);
    vstd::arithmetic::div_mod::lemma_mod_bound(x, r);
    assert(n * r == r * n) by (nonlinear_arith);
    assert((n - 1) * r == n * r - r) by (nonlinear_arith);
}

/// The number of experts is the configured one, or else the one that fits the size; but there is
/// at least one, and no more than there are rows.
pub proof fn law_expert_count(rows: nat, cols: nat, configured: nat)
    requires
        rows > 0,
        cols > 0,
    ensures
        1 <= expert_count(rows, cols, configured) <= rows,
        1 <= configured <= rows ==> expert_count(rows, cols, configured) == configured,
        configured == 0 ==> expert_count(rows, cols, configured) == derived_experts(
            rows as int,
            cols as int,
        ),
{
    law_experts_fill_their_size(rows, cols);
    let r = rows_per_expert(cols as int);
    let n = derived_experts(rows as int, cols as int);
    assert(1 <= n <= rows) by (nonlinear_arith)
        requires
            r >= 1,
            n * r >= rows,
            (n - 1) * r < rows,
            rows > 0,
    ;
}

/// A larger fraction makes the core no smaller. The core never takes all rows, and where the
/// number of rows times the fraction rounds to less than all, it has so many.
pub proof fn law_core_size<T: Scalar>(rows: usize, low: T, high: T)
    requires
        keeps_order::<T>(),
        rows > 0,
        finite(low),
        finite(high),
        low.at_most_spec(high),
        forall|a: T, b: T|
            a.at_most_spec(b) ==> #[trigger] a.rounded_spec() <= #[trigger] b.rounded_spec(),
    ensures
        core_size(rows as nat, low) <= core_size(rows as nat, high) < rows,
        T::spec_count(rows).times_spec(low).rounded_spec() < rows ==> core_size(rows as nat, low)
            == T::spec_count(rows).times_spec(low).rounded_spec(),
{
    let n = T::spec_count(rows);
    lemma_positive_count::<T>(rows);
    lemma_not_below(T::spec_zero(), n);
    lemma_times(low, high, n);
    assert(n.times_spec(low).at_most_spec(n.times_spec(high)));
    let (x, y) = (n.times_spec(low).rounded_spec(), n.times_spec(high).rounded_spec());
    assert(x <= y);
}

/// The weights of a new layer lie within the square root of two over the number of inputs of their
/// matrix.
pub proof fn law_new_weights_scaled<T: Scalar>(
    w: ToyLmWeights<T>,
    c: Config,
    seed: u64,
    l: int,
    m: Matrix<T>,
    i: int,
)
    requires
        keeps_order::<T>(),
        weights_fit(w, c),
        0 <= l < c.num_layers,
        layer_random(w, c, seed, l),
        m == w.qkv@[l] || m == w.attn_out@[l] || m == w.ff_up@[l] || m == w.ff_down@[l],
        m.cols > 0,
        0 <= i < m.data@.len(),
        finite(two::<T>().over_spec(T::spec_count(m.cols)).root_spec()),
        T::spec_zero().at_most_spec(two::<T>().over_spec(T::spec_count(m.cols)).root_spec()),
        finite(one::<T>().times_spec(two())),
        unity(one::<T>().times_spec(two()).minus_spec(one())),
        one::<T>().negated_spec().at_most_spec(
            T::spec_zero().times_spec(two()).minus_spec(one()),
        ),
    ensures
        ({
            let s = two::<T>().over_spec(T::spec_count(m.cols)).root_spec();
            &&& one::<T>().negated_spec().times_spec(s).at_most_spec(m.data@[i])
            &&& m.data@[i].at_most_spec(one::<T>().times_spec(s))
        }),
{
    let d = c.dim as int;
    let f = c.ff_dim as int;
    assert(has_shape(w.qkv@[l], 3 * d, d));
    assert(has_shape(w.attn_out@[l], d, d));
    assert(has_shape(w.ff_up@[l], f, d));
    assert(has_shape(w.ff_down@[l], d, f));
    let x = layer_state(c, seed, l as nat);
    let a = ((3 * c.dim) * c.dim) as nat;
    let b = (c.dim * c.dim) as nat;
    let u = (c.ff_dim * c.dim) as nat;
    let start = if m == w.qkv@[l] {
        x
    } else if m == w.attn_out@[l] {
        state_after(x, a)
    } else if m == w.ff_up@[l] {
        state_after(x, a + b)
    } else {
        state_after(x, a + b + u)
    };
    assert(m.data@ == xavier_spec::<T>(m.data@.len(), m.cols as nat, start));
    law_random_weights_bounded::<T>(m.data@.len(), m.cols as nat, start, i);
}

} // verus!
