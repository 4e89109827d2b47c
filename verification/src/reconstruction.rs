//! What a sparse layer computes, compared with the weights that it stands for.

use vstd::prelude::*;
use crate::kernel::{
    adds_exactly, decoded, lane_value, lane_values, lemma_plus_zero, lemma_signed_is_sum,
    signed_sum, KernelKind,
};
use crate::quantize::reconstructed;
use crate::rng::counting;
use crate::scalar::{dot_spec, products, sum_of, Scalar};
use crate::sparse::SparseLayer;
use crate::sparse_forward::{is_store, layer_stored};
use crate::sparse_linear::{
    expert_values, law_activated_row_unbiased, law_core_row_exact, layer_ready, rows_owned,
    sparse_output,
};
use crate::tensor::{lemma_row_index, row_of, Matrix};
use crate::transmuter::{expert_complete, quantized_row, row_listed};

verus! {

/// Whether products do not depend on how they are grouped, distribute over sums, and have
/// the codes one, minus one and zero for what these numbers are.
#[verifier::opaque]
pub open spec fn multiplies_exactly<T: Scalar>() -> bool {
    &&& forall|a: T, b: T, c: T| #[trigger]
        a.times_spec(b).times_spec(c) == a.times_spec(b.times_spec(c))
    &&& forall|a: T, b: T, c: T| #[trigger]
        a.times_spec(b.plus_spec(c)) == a.times_spec(b).plus_spec(a.times_spec(c))
    &&& forall|a: T| #[trigger] a.times_spec(T::spec_zero()) == T::spec_zero()
    &&& forall|x: T| #[trigger] T::spec_code(1).times_spec(x) == x
    &&& forall|x: T| #[trigger]
        T::spec_code(-1i8).times_spec(x) == T::spec_zero().minus_spec(x)
    &&& forall|x: T| #[trigger] T::spec_code(0).times_spec(x) == T::spec_zero()
}

proof fn lemma_times_groups<T: Scalar>(a: T, b: T, c: T)
    requires
        multiplies_exactly::<T>(),
    ensures
        a.times_spec(b).times_spec(c) == a.times_spec(b.times_spec(c)),
{
    reveal(multiplies_exactly);
}

proof fn lemma_times_spreads<T: Scalar>(a: T, b: T, c: T)
    requires
        multiplies_exactly::<T>(),
    ensures
        a.times_spec(b.plus_spec(c)) == a.times_spec(b).plus_spec(a.times_spec(c)),
        a.times_spec(T::spec_zero()) == T::spec_zero(),
{
    reveal(multiplies_exactly);
}

/// A code times a number is what a lane holds for them.
proof fn lemma_code_times<T: Scalar>(code: i8, x: T)
    requires
        adds_exactly::<T>(),
        multiplies_exactly::<T>(),
        -1 <= code <= 1,
    ensures
        T::spec_code(code).times_spec(x) == lane_value(code, x),
{
    reveal(multiplies_exactly);
    lemma_plus_zero(x);
    lemma_plus_zero(T::spec_zero());
}

/// A factor can be taken out of a sum.
proof fn lemma_factor_out<T: Scalar>(scale: T, t: Seq<T>, u: Seq<T>, n: nat)
    requires
        multiplies_exactly::<T>(),
        n <= t.len(),
        n <= u.len(),
        forall|i: int| 0 <= i < n ==> #[trigger] u[i] == scale.times_spec(t[i]),
    ensures
        scale.times_spec(sum_of(t, n)) == sum_of(u, n),
    decreases n,
{
    if n > 0 {
        lemma_factor_out(scale, t, u, (n - 1) as nat);
        lemma_times_spreads(scale, sum_of(t, (n - 1) as nat), t[n - 1]);
        assert(u[n - 1] == scale.times_spec(t[n - 1]));
    } else {
        lemma_times_spreads(scale, scale, scale);
    }
}

/// A ternary row contributes the inner product of the weights that it stands for, where
/// arithmetic is exact.
pub proof fn law_ternary_row_is_reconstruction<T: Scalar>(codes: Seq<i8>, scale: T, x: Seq<T>)
    requires
        adds_exactly::<T>(),
        multiplies_exactly::<T>(),
        codes.len() == x.len(),
        forall|i: int| 0 <= i < codes.len() ==> -1 <= #[trigger] codes[i] <= 1,
    ensures
        scale.times_spec(signed_sum(codes, x, x.len())) == dot_spec(
            reconstructed(codes, scale),
            x,
        ),
{
    let n = x.len();
    let t = lane_values(codes, x);
    let u = products(reconstructed(codes, scale), x);
    lemma_signed_is_sum(codes, x, n);
    assert forall|i: int| 0 <= i < n implies #[trigger] u[i] == scale.times_spec(t[i]) by {
        lemma_times_groups(scale, T::spec_code(codes[i]), x[i]);
        assert(-1 <= codes[i] <= 1);
        lemma_code_times(codes[i], x[i]);
    }
    lemma_factor_out(scale, t, u, n);
    assert(u.len() == n);
}

/// A product-quantised row contributes the inner product of the weights that it stands for,
/// where arithmetic is exact.
pub proof fn law_pq_row_is_reconstruction<T: Scalar>(row: Seq<T>, scale: T, x: Seq<T>)
    requires
        multiplies_exactly::<T>(),
        row.len() == x.len(),
    ensures
        scale.times_spec(dot_spec(row, x)) == dot_spec(
            row.map_values(|v: T| scale.times_spec(v)),
            x,
        ),
{
    let n = x.len();
    let scaled = row.map_values(|v: T| scale.times_spec(v));
    let t = products(row, x);
    let u = products(scaled, x);
    assert forall|i: int| 0 <= i < n implies #[trigger] u[i] == scale.times_spec(t[i]) by {
        lemma_times_groups(scale, row[i], x[i]);
    }
    lemma_factor_out(scale, t, u, n);
    assert(t.len() == n);
    assert(u.len() == n);
}

/// Whether all codes of a layer's ternary experts are one, minus one or zero.
pub open spec fn codes_ternary<T>(sl: SparseLayer<T>) -> bool {
    forall|k: int, i: int|
        0 <= k < sl.experts@.len() && 0 <= i < sl.experts@[k].ternary@.len() ==> -1
            <= #[trigger] sl.experts@[k].ternary@[i] <= 1
}

/// With every expert activated, a sparse layer computes with the weights that it stands for:
/// each row that the core or an expert has is the inner product of the input with the
/// stored row, where arithmetic is exact. The quantisation is then all that is lost.
pub proof fn law_all_experts_match_store<T: Scalar>(
    sl: SparseLayer<T>,
    m: Matrix<T>,
    x: Seq<T>,
    q: int,
)
    requires
        adds_exactly::<T>(),
        multiplies_exactly::<T>(),
        layer_stored(sl),
        rows_owned(sl),
        is_store(m, sl),
        codes_ternary(sl),
        forall|k: int|
            0 <= k < sl.experts@.len() ==> ((#[trigger] sl.experts@[k]).pq is Some
                ==> sl.pq_codebook is Some),
        x.len() == sl.in_dim,
        layer_ready(sl, x.len(), counting(sl.experts@.len())),
        0 <= q < sl.out_dim,
        sl.core_row_ids@.contains(q as u32) || row_listed(sl.experts@, q),
        sl.out_dim <= u32::MAX,
    ensures
        sparse_output(sl, x, counting(sl.experts@.len()), KernelKind::Scalar)[q] == dot_spec(
            m.row_seq(q),
            x,
        ),
{
    reveal(layer_stored);
    reveal(is_store);
    let all = counting(sl.experts@.len());
    let kind = KernelKind::Scalar;
    assert(sl.experts.len() == sl.experts@.len());
    assert(all.no_duplicates());
    if sl.core_row_ids@.contains(q as u32) {
        let i = choose|i: int| 0 <= i < sl.core_row_ids@.len() && sl.core_row_ids@[i] == q as u32;
        law_core_row_exact(sl, x, all, kind, i);
        assert(m.row_seq(sl.core_row_ids@[i] as int) == sl.dense_core.row_seq(i));
        lemma_plus_zero(dot_spec(m.row_seq(q), x));
    } else {
        let (k, j) = choose|k: int, j: int|
            0 <= k < sl.experts@.len() && 0 <= j < sl.experts@[k].row_ids@.len()
                && #[trigger] sl.experts@[k].row_ids@[j] == q;
        let e = sl.experts@[k];
        assert(expert_complete(e, sl.pq_codebook, sl.in_dim as nat));
        assert(all[k] == k);
        assert(m.row_seq(sl.experts@[k].row_ids@[j] as int) == quantized_row(
            e,
            sl.pq_codebook,
            sl.in_dim as nat,
            j,
        ));
        law_activated_row_unbiased(sl, x, all, kind, k, j);
        let value = expert_values(e, sl.pq_codebook, x, kind)[j];
        lemma_plus_zero(value);
        match (e.pq, sl.pq_codebook) {
            (Some(pq), Some(cb)) => {
                let row = decoded(row_of(pq.codes@, pq.num_sub_vectors as int, j), cb);
                law_pq_row_is_reconstruction(row, pq.row_scales@[j], x);
            },
            _ => {
                let codes = row_of(e.ternary@, sl.in_dim as int, j);
                lemma_row_index(e.row_ids@.len() as int, sl.in_dim as int, j);
                assert forall|i: int| 0 <= i < codes.len() implies -1 <= #[trigger] codes[i] <= 1 by {
                    assert(codes[i] == sl.experts@[k].ternary@[j * sl.in_dim + i]);
                }
                law_ternary_row_is_reconstruction(codes, e.row_scales@[j], x);
            },
        }
    }
}

} // verus!
