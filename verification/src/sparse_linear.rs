//! The sparse forward pass of one layer.

use vstd::prelude::*;
use crate::bias::{apply_adaptive, biased_adaptive};
use crate::kernel::{
    adds_exactly, apply_bias, apply_bias_pruned_only, biased, biased_pruned,
    compute_dense_core_dispatch, compute_pq_micro_expert_dispatch,
    compute_ternary_micro_expert_dispatch, core_values_by, ids_within, law_lanes_agree,
    law_scattered_distinct, lemma_scattered_len, pq_ready, pq_values, pruned, scattered,
    ternary_ready, ternary_values_by, KernelKind,
};
use crate::pq::encoded;
use crate::rng::counting;
use crate::scalar::Scalar;
use crate::sparse::{MicroExpert, PqCodebook, SparseLayer};
use crate::tensor::{filled, lemma_row_index, row_of};

verus! {

/// What an expert contributes to each of its first `expert_width` rows.
pub open spec fn expert_values<T: Scalar>(
    e: MicroExpert<T>,
    codebook: Option<PqCodebook<T>>,
    x: Seq<T>,
    kind: KernelKind,
) -> Seq<T> {
    match (e.pq, codebook) {
        (Some(_), Some(cb)) => pq_values(e, x, cb),
        (Some(_), None) => Seq::empty(),
        (None, _) => ternary_values_by(e, x, kind),
    }
}

/// How many of its rows an expert contributes to: all of them in a sound layer, and
/// none if it is product-quantised in a layer without a codebook.
pub open spec fn expert_width<T>(e: MicroExpert<T>, codebook: Option<PqCodebook<T>>) -> nat {
    match (e.pq, codebook) {
        (Some(pq), Some(_)) => pq.row_scales@.len(),
        (Some(_), None) => 0,
        (None, _) => e.row_ids@.len(),
    }
}

/// `y` with the contributions of one expert.
pub open spec fn with_expert<T: Scalar>(
    y: Seq<T>,
    e: MicroExpert<T>,
    codebook: Option<PqCodebook<T>>,
    x: Seq<T>,
    kind: KernelKind,
) -> Seq<T> {
    scattered(y, e.row_ids@, expert_values(e, codebook, x, kind), expert_width(e, codebook))
}

/// `y` with the contributions of the first `n` activated experts.
pub open spec fn with_experts<T: Scalar>(
    y: Seq<T>,
    sl: SparseLayer<T>,
    x: Seq<T>,
    activated: Seq<usize>,
    kind: KernelKind,
    n: nat,
) -> Seq<T>
    decreases n,
{
    if n == 0 {
        y
    } else {
        with_expert(
            with_experts(y, sl, x, activated, kind, (n - 1) as nat),
            sl.experts@[activated[n - 1] as int],
            sl.pq_codebook,
            x,
            kind,
        )
    }
}

/// For each expert whether it is activated.
pub open spec fn activation_mask(activated: Seq<usize>, n: nat) -> Seq<bool> {
    Seq::new(n, |e: int| activated.contains(e as usize))
}

/// `y` with the layer's bias.
pub open spec fn with_bias<T: Scalar>(
    y: Seq<T>,
    sl: SparseLayer<T>,
    x: Seq<T>,
    activated: Seq<usize>,
) -> Seq<T> {
    let mask = activation_mask(activated, sl.experts@.len());
    if sl.row_to_expert@.len() == 0 {
        biased(sl.bias@, y)
    } else {
        match (sl.bias_table, sl.input_codebook) {
            (Some(table), Some(cb)) => biased_adaptive(
                table@,
                y,
                sl.row_to_expert@,
                mask,
                encoded(x, cb)[0] as int,
                sl.out_dim as int,
            ),
            _ => biased_pruned(sl.bias@, y, sl.row_to_expert@, mask),
        }
    }
}

/// The contributions of the dense core.
pub open spec fn core_output<T: Scalar>(sl: SparseLayer<T>, x: Seq<T>, kind: KernelKind) -> Seq<T> {
    scattered(
        Seq::new(sl.out_dim as nat, |i: int| T::spec_zero()),
        sl.core_row_ids@,
        core_values_by(sl.dense_core, sl.core_row_ids@.len(), x, kind),
        sl.core_row_ids@.len(),
    )
}

/// The output of a layer: the dense core, then the activated experts in order, then
/// the bias.
pub open spec fn sparse_output<T: Scalar>(
    sl: SparseLayer<T>,
    x: Seq<T>,
    activated: Seq<usize>,
    kind: KernelKind,
) -> Seq<T> {
    with_bias(
        with_experts(core_output(sl, x, kind), sl, x, activated, kind, activated.len()),
        sl,
        x,
        activated,
    )
}

/// Whether an expert's rows and codes fit the layer.
pub open spec fn expert_ready<T>(
    e: MicroExpert<T>,
    codebook: Option<PqCodebook<T>>,
    in_len: nat,
    out_dim: nat,
) -> bool {
    &&& ids_within(e.row_ids@, out_dim)
    &&& match (e.pq, codebook) {
        (Some(_), Some(cb)) => pq_ready(e, in_len, cb),
        (Some(_), None) => true,
        (None, _) => ternary_ready(e, in_len),
    }
}

/// Whether the layer's core, its activated experts and its bias table fit together
/// and fit an input of length `in_len`.
pub open spec fn layer_ready<T>(sl: SparseLayer<T>, in_len: nat, activated: Seq<usize>) -> bool {
    &&& sl.core_row_ids@.len() * sl.dense_core.cols <= sl.dense_core.data@.len()
    &&& sl.dense_core.cols <= in_len
    &&& ids_within(sl.core_row_ids@, sl.out_dim as nat)
    &&& forall|i: int|
        0 <= i < activated.len() ==> (#[trigger] activated[i]) < sl.experts@.len() && expert_ready(
            sl.experts@[activated[i] as int],
            sl.pq_codebook,
            in_len,
            sl.out_dim as nat,
        )
    &&& (sl.row_to_expert@.len() > 0 && sl.bias_table is Some) ==> (sl.input_codebook matches Some(
        cb,
    ) ==> cb.wf() && cb.num_sub_vectors >= 1 && in_len == cb.num_sub_vectors * cb.sub_dim && 256
        * sl.out_dim <= usize::MAX)
}

proof fn lemma_with_expert_len<T: Scalar>(
    y: Seq<T>,
    e: MicroExpert<T>,
    codebook: Option<PqCodebook<T>>,
    x: Seq<T>,
    kind: KernelKind,
)
    requires
        expert_ready(e, codebook, x.len(), y.len()),
    ensures
        with_expert(y, e, codebook, x, kind).len() == y.len(),
{
    lemma_scattered_len(y, e.row_ids@, expert_values(e, codebook, x, kind), expert_width(e, codebook));
}

/// The output of a layer for one input, with the given kernels. `activated` lists
/// the experts to compute; the bias stands in for the others.
pub fn sparse_linear_with_kernel<T: Scalar>(
    sl: &SparseLayer<T>,
    x: &[T],
    activated: &[usize],
    kind: KernelKind,
) -> (y: Vec<T>)
    requires
        layer_ready(*sl, x@.len(), activated@),
    ensures
        y@ == sparse_output(*sl, x@, activated@, kind),
        y@.len() == sl.out_dim,
{
    let mut y = filled(sl.out_dim, T::zero());
    compute_dense_core_dispatch(&sl.dense_core, &sl.core_row_ids, x, &mut y, kind);
    let ghost y0 = y@;
    assert(y0 == core_output(*sl, x@, kind));
    proof {
        lemma_scattered_len(
            Seq::new(sl.out_dim as nat, |i: int| T::spec_zero()),
            sl.core_row_ids@,
            core_values_by(sl.dense_core, sl.core_row_ids@.len(), x@, kind),
            sl.core_row_ids@.len(),
        );
    }
    for i in 0..activated.len()
        invariant
            layer_ready(*sl, x@.len(), activated@),
            y@ == with_experts(y0, *sl, x@, activated@, kind, i as nat),
            y@.len() == sl.out_dim,
    {
        let eid: usize = activated[i];
        assert(activated@[i as int] < sl.experts@.len());
        let expert = &sl.experts[eid];
        let ghost before = y@;
        proof {
            lemma_with_expert_len(before, *expert, sl.pq_codebook, x@, kind);
        }
        match (&expert.pq, &sl.pq_codebook) {
            (Some(_), Some(cb)) => {
                compute_pq_micro_expert_dispatch(expert, x, &mut y, cb, kind);
            },
            (Some(_), None) => {},
            (None, _) => {
                compute_ternary_micro_expert_dispatch(expert, x, &mut y, kind);
            },
        }
        assert(y@ == with_expert(before, *expert, sl.pq_codebook, x@, kind));
    }
    if sl.row_to_expert.is_empty() {
        apply_bias(&sl.bias, &mut y);
        return y;
    }
    let ghost n_experts = sl.experts@.len();
    let mut activated_set: Vec<bool> = filled(sl.experts.len(), false);
    for i in 0..activated.len()
        invariant
            layer_ready(*sl, x@.len(), activated@),
            n_experts == sl.experts@.len(),
            n_experts <= usize::MAX,
            activated_set@.len() == n_experts,
            forall|e: int|
                0 <= e < n_experts ==> #[trigger] activated_set@[e] == activated@.take(
                    i as int,
                ).contains(e as usize),
    {
        let eid: usize = activated[i];
        let ghost before = activated_set@;
        let ghost done = activated@.take(i as int);
        let ghost now = activated@.take(i + 1);
        assert(activated@[i as int] < sl.experts@.len());
        activated_set[eid] = true;
        assert forall|e: int| 0 <= e < n_experts implies #[trigger] activated_set@[e] == now.contains(
            e as usize,
        ) by {
            assert(before[e] == done.contains(e as usize));
            if done.contains(e as usize) {
                let j = choose|j: int| 0 <= j < done.len() && done[j] == e as usize;
                assert(now[j] == e as usize);
            }
            if now.contains(e as usize) && e != eid {
                let j = choose|j: int| 0 <= j < now.len() && now[j] == e as usize;
                assert(done[j] == e as usize);
            }
            if e == eid {
                assert(now[i as int] == e as usize);
            }
        }
    }
    assert(activated@.take(activated@.len() as int) =~= activated@);
    assert(activated_set@ =~= activation_mask(activated@, n_experts));
    match (&sl.bias_table, &sl.input_codebook) {
        (Some(table), Some(cb)) => {
            apply_adaptive(table, &mut y, &sl.row_to_expert, &activated_set, x, cb, sl.out_dim);
        },
        _ => {
            apply_bias_pruned_only(&sl.bias, &mut y, &sl.row_to_expert, &activated_set);
        },
    }
    y
}

/// The output of a layer for one input.
pub fn sparse_linear<T: Scalar>(sl: &SparseLayer<T>, x: &[T], activated: &[usize]) -> (y: Vec<T>)
    requires
        layer_ready(*sl, x@.len(), activated@),
    ensures
        y@ == sparse_output(*sl, x@, activated@, KernelKind::Auto),
        y@.len() == sl.out_dim,
{
    sparse_linear_with_kernel(sl, x, activated, KernelKind::Auto)
}

/// The output of a layer for one input, with every expert activated.
pub fn sparse_linear_all<T: Scalar>(sl: &SparseLayer<T>, x: &[T]) -> (y: Vec<T>)
    requires
        layer_ready(*sl, x@.len(), counting(sl.experts@.len())),
    ensures
        y@ == sparse_output(*sl, x@, counting(sl.experts@.len()), KernelKind::Auto),
        y@.len() == sl.out_dim,
{
    let mut activated: Vec<usize> = Vec::with_capacity(sl.experts.len());
    for i in 0..sl.experts.len()
        invariant
            activated@ == counting(i as nat),
    {
        activated.push(i);
        assert(activated@ =~= counting((i + 1) as nat));
    }
    sparse_linear(sl, x, &activated)
}

/// Whether the row-to-expert map says for every row who computes it: -1 for the core
/// rows, and for the rows of each expert that expert. No row is listed twice.
pub open spec fn rows_owned<T>(sl: SparseLayer<T>) -> bool {
    &&& sl.row_to_expert@.len() == sl.out_dim
    &&& ids_within(sl.core_row_ids@, sl.out_dim as nat)
    &&& sl.core_row_ids@.no_duplicates()
    &&& forall|i: int|
        0 <= i < sl.core_row_ids@.len() ==> sl.row_to_expert@[(
        #[trigger] sl.core_row_ids@[i]) as int] == -1
    &&& forall|k: int|
        0 <= k < sl.experts@.len() ==> ids_within(
            (#[trigger] sl.experts@[k]).row_ids@,
            sl.out_dim as nat,
        ) && sl.experts@[k].row_ids@.no_duplicates()
    &&& forall|k: int, i: int|
        0 <= k < sl.experts@.len() && 0 <= i < sl.experts@[k].row_ids@.len()
            ==> sl.row_to_expert@[(#[trigger] sl.experts@[k].row_ids@[i]) as int] == k
}

/// In a layer that owns its rows, the experts leave alone every row that no activated
/// expert owns, and add to every other row its own value once.
proof fn lemma_experts_rows<T: Scalar>(
    y: Seq<T>,
    sl: SparseLayer<T>,
    x: Seq<T>,
    activated: Seq<usize>,
    kind: KernelKind,
    n: nat,
)
    requires
        rows_owned(sl),
        layer_ready(sl, x.len(), activated),
        activated.no_duplicates(),
        n <= activated.len(),
        y.len() == sl.out_dim,
    ensures
        with_experts(y, sl, x, activated, kind, n).len() == y.len(),
        forall|r: int|
            0 <= r < y.len() && (forall|i: int|
                0 <= i < n ==> (#[trigger] activated[i]) != sl.row_to_expert@[r])
                ==> #[trigger] with_experts(y, sl, x, activated, kind, n)[r] == y[r],
        forall|i: int, j: int|
            0 <= i < n && 0 <= j < expert_width(
                sl.experts@[activated[i] as int],
                sl.pq_codebook,
            ) ==> with_experts(y, sl, x, activated, kind, n)[(#[trigger] sl.experts@[activated[i] as int].row_ids@[j]) as int]
                == y[sl.experts@[activated[i] as int].row_ids@[j] as int].plus_spec(
                expert_values(sl.experts@[activated[i] as int], sl.pq_codebook, x, kind)[j],
            ),
    decreases n,
{
    if n > 0 {
        let m = (n - 1) as nat;
        lemma_experts_rows(y, sl, x, activated, kind, m);
        let p = with_experts(y, sl, x, activated, kind, m);
        let last = activated[n - 1];
        assert(last < sl.experts@.len());
        let e = sl.experts@[last as int];
        let vals = expert_values(e, sl.pq_codebook, x, kind);
        let w = expert_width(e, sl.pq_codebook);
        let q = scattered(p, e.row_ids@, vals, w);
        law_scattered_distinct(p, e.row_ids@, vals, w);
        assert forall|r: int|
            0 <= r < y.len() && (forall|i: int|
                0 <= i < n ==> (#[trigger] activated[i]) != sl.row_to_expert@[r]) implies
            #[trigger] with_experts(y, sl, x, activated, kind, n)[r] == y[r] by {
            assert(p[r] == y[r]);
            assert forall|i: int| 0 <= i < w implies (#[trigger] e.row_ids@[i]) != r by {
                if e.row_ids@[i] == r {
                    assert(sl.row_to_expert@[sl.experts@[last as int].row_ids@[i] as int] == last);
                    assert(activated[n - 1] == sl.row_to_expert@[r]);
                }
            }
        }
        assert forall|i: int, j: int|
            0 <= i < n && 0 <= j < expert_width(
                sl.experts@[activated[i] as int],
                sl.pq_codebook,
            ) implies with_experts(y, sl, x, activated, kind, n)[(#[trigger] sl.experts@[activated[i] as int].row_ids@[j]) as int]
            == y[sl.experts@[activated[i] as int].row_ids@[j] as int].plus_spec(
            expert_values(sl.experts@[activated[i] as int], sl.pq_codebook, x, kind)[j],
        ) by {
            assert(activated[i] < sl.experts@.len());
            let r = sl.experts@[activated[i] as int].row_ids@[j] as int;
            assert(sl.row_to_expert@[r] == activated[i]);
            if i < n - 1 {
                assert(activated[i] != last);
                assert forall|t: int| 0 <= t < w implies (#[trigger] e.row_ids@[t]) != r by {
                    if e.row_ids@[t] == r {
                        assert(sl.row_to_expert@[sl.experts@[last as int].row_ids@[t] as int]
                            == last);
                    }
                }
            } else {
                assert(p[r] == y[r]) by {
                    assert forall|t: int| 0 <= t < m implies (#[trigger] activated[t])
                        != sl.row_to_expert@[r] by {
                        assert(activated[t] != activated[n - 1]);
                    }
                }
            }
        }
    }
}

/// A core row is computed exactly: whatever is activated, its output is the inner
/// product of its weights with the input, and it never gets a bias.
pub proof fn law_core_row_exact<T: Scalar>(
    sl: SparseLayer<T>,
    x: Seq<T>,
    activated: Seq<usize>,
    kind: KernelKind,
    i: int,
)
    requires
        rows_owned(sl),
        sl.out_dim > 0,
        layer_ready(sl, x.len(), activated),
        activated.no_duplicates(),
        0 <= i < sl.core_row_ids@.len(),
    ensures
        sparse_output(sl, x, activated, kind)[sl.core_row_ids@[i] as int]
            == T::spec_zero().plus_spec(core_values_by(sl.dense_core, sl.core_row_ids@.len(), x, kind)[i]),
{
    let zeros = Seq::new(sl.out_dim as nat, |j: int| T::spec_zero());
    let vals = core_values_by(sl.dense_core, sl.core_row_ids@.len(), x, kind);
    let r = sl.core_row_ids@[i] as int;
    law_scattered_distinct(zeros, sl.core_row_ids@, vals, sl.core_row_ids@.len());
    let y = core_output(sl, x, kind);
    lemma_experts_rows(y, sl, x, activated, kind, activated.len());
    assert(sl.row_to_expert@[r] == -1);
}

/// A row of an activated expert gets what the expert computes and no bias: the bias
/// is not counted on top of the computed value.
pub proof fn law_activated_row_unbiased<T: Scalar>(
    sl: SparseLayer<T>,
    x: Seq<T>,
    activated: Seq<usize>,
    kind: KernelKind,
    i: int,
    j: int,
)
    requires
        rows_owned(sl),
        layer_ready(sl, x.len(), activated),
        activated.no_duplicates(),
        0 <= i < activated.len(),
        0 <= j < expert_width(sl.experts@[activated[i] as int], sl.pq_codebook),
    ensures
        sparse_output(sl, x, activated, kind)[sl.experts@[activated[i] as int].row_ids@[j] as int]
            == T::spec_zero().plus_spec(
            expert_values(sl.experts@[activated[i] as int], sl.pq_codebook, x, kind)[j],
        ),
{
    let zeros = Seq::new(sl.out_dim as nat, |t: int| T::spec_zero());
    let vals = core_values_by(sl.dense_core, sl.core_row_ids@.len(), x, kind);
    law_scattered_distinct(zeros, sl.core_row_ids@, vals, sl.core_row_ids@.len());
    let y = core_output(sl, x, kind);
    lemma_experts_rows(y, sl, x, activated, kind, activated.len());
    let k = activated[i] as int;
    assert(k < sl.experts@.len());
    assert(expert_ready(sl.experts@[k], sl.pq_codebook, x.len(), sl.out_dim as nat));
    let r = sl.experts@[k].row_ids@[j] as int;
    assert(ids_within(sl.experts@[k].row_ids@, sl.out_dim as nat));
    assert(sl.row_to_expert@[r] == k);
    assert(y[r] == zeros[r]) by {
        assert forall|t: int| 0 <= t < sl.core_row_ids@.len() implies (
        #[trigger] sl.core_row_ids@[t]) != r by {
            assert(sl.row_to_expert@[sl.core_row_ids@[t] as int] == -1);
        }
    }
    let mask = activation_mask(activated, sl.experts@.len());
    assert(mask[k]);
    assert(!pruned(sl.row_to_expert@, mask, r));
}

/// A row of an expert that is not activated gets the bias and nothing else.
pub proof fn law_pruned_row_gets_bias<T: Scalar>(
    sl: SparseLayer<T>,
    x: Seq<T>,
    activated: Seq<usize>,
    kind: KernelKind,
    k: int,
    j: int,
)
    requires
        rows_owned(sl),
        layer_ready(sl, x.len(), activated),
        activated.no_duplicates(),
        0 <= k < sl.experts@.len(),
        0 <= j < sl.experts@[k].row_ids@.len(),
        !activated.contains(k as usize),
        sl.bias@.len() == sl.out_dim,
        sl.bias_table matches Some(t) ==> (sl.input_codebook matches Some(cb) ==> t@.len() >= 256
            * sl.out_dim),
    ensures
        ({
            let r = sl.experts@[k].row_ids@[j] as int;
            let y = sparse_output(sl, x, activated, kind);
            match (sl.bias_table, sl.input_codebook) {
                (Some(t), Some(cb)) => y[r] == T::spec_zero().plus_spec(
                    t@[encoded(x, cb)[0] * sl.out_dim + r],
                ),
                _ => y[r] == T::spec_zero().plus_spec(sl.bias@[r]),
            }
        }),
{
    let zeros = Seq::new(sl.out_dim as nat, |t: int| T::spec_zero());
    let vals = core_values_by(sl.dense_core, sl.core_row_ids@.len(), x, kind);
    law_scattered_distinct(zeros, sl.core_row_ids@, vals, sl.core_row_ids@.len());
    let y = core_output(sl, x, kind);
    lemma_experts_rows(y, sl, x, activated, kind, activated.len());
    assert(ids_within(sl.experts@[k].row_ids@, sl.out_dim as nat));
    let r = sl.experts@[k].row_ids@[j] as int;
    assert(sl.row_to_expert@[r] == k);
    assert(y[r] == zeros[r]) by {
        assert forall|t: int| 0 <= t < sl.core_row_ids@.len() implies (
        #[trigger] sl.core_row_ids@[t]) != r by {
            assert(sl.row_to_expert@[sl.core_row_ids@[t] as int] == -1);
        }
    }
    assert(with_experts(y, sl, x, activated, kind, activated.len())[r] == y[r]) by {
        assert forall|i: int| 0 <= i < activated.len() implies (#[trigger] activated[i])
            != sl.row_to_expert@[r] by {
            if activated[i] == k {
                assert(activated[i] == k as usize);
            }
        }
    }
    let mask = activation_mask(activated, sl.experts@.len());
    assert(!mask[k]);
    assert(pruned(sl.row_to_expert@, mask, r));
    match (sl.bias_table, sl.input_codebook) {
        (Some(t), Some(cb)) => {
            let c = encoded(x, cb)[0];
            assert(c * sl.out_dim + r < 256 * sl.out_dim) by (nonlinear_arith)
                requires
                    c <= 255,
                    0 <= r < sl.out_dim,
            ;
        },
        _ => {},
    }
}

proof fn lemma_experts_agree<T: Scalar>(
    y: Seq<T>,
    sl: SparseLayer<T>,
    x: Seq<T>,
    activated: Seq<usize>,
    kind: KernelKind,
    n: nat,
)
    requires
        adds_exactly::<T>(),
        layer_ready(sl, x.len(), activated),
        n <= activated.len(),
    ensures
        with_experts(y, sl, x, activated, kind, n) == with_experts(
            y,
            sl,
            x,
            activated,
            KernelKind::Scalar,
            n,
        ),
    decreases n,
{
    if n > 0 {
        lemma_experts_agree(y, sl, x, activated, kind, (n - 1) as nat);
        assert(activated[n - 1] < sl.experts@.len());
        let e = sl.experts@[activated[n - 1] as int];
        assert(expert_ready(e, sl.pq_codebook, x.len(), sl.out_dim as nat));
        let a = ternary_values_by(e, x, kind);
        let b = ternary_values_by(e, x, KernelKind::Scalar);
        assert forall|i: int| 0 <= i < a.len() implies a[i] == b[i] by {
            law_lanes_agree(row_of(e.ternary@, x.len() as int, i), Seq::empty(), x);
        }
        assert(a =~= b);
    }
}

/// Where sums do not depend on their order, the choice of kernels does not change the
/// output of a layer.
pub proof fn law_kernels_agree<T: Scalar>(
    sl: SparseLayer<T>,
    x: Seq<T>,
    activated: Seq<usize>,
    kind: KernelKind,
)
    requires
        adds_exactly::<T>(),
        layer_ready(sl, x.len(), activated),
    ensures
        sparse_output(sl, x, activated, kind) == sparse_output(
            sl,
            x,
            activated,
            KernelKind::Scalar,
        ),
{
    let n = sl.core_row_ids@.len();
    let a = core_values_by(sl.dense_core, n, x, kind);
    let b = core_values_by(sl.dense_core, n, x, KernelKind::Scalar);
    assert forall|i: int| 0 <= i < n implies a[i] == b[i] by {
        lemma_row_index(n as int, sl.dense_core.cols as int, i);
        law_lanes_agree(Seq::empty(), sl.dense_core.row_seq(i), x);
    }
    assert(a =~= b);
    lemma_experts_agree(core_output(sl, x, kind), sl, x, activated, kind, activated.len());
}

/// The activated experts leave every row alone that none of them computes.
proof fn lemma_untouched_row<T: Scalar>(
    y: Seq<T>,
    sl: SparseLayer<T>,
    x: Seq<T>,
    activated: Seq<usize>,
    kind: KernelKind,
    n: nat,
    r: int,
)
    requires
        rows_owned(sl),
        layer_ready(sl, x.len(), activated),
        n <= activated.len(),
        y.len() == sl.out_dim,
        0 <= r < y.len(),
        forall|i: int, j: int|
            0 <= i < n && 0 <= j < expert_width(
                sl.experts@[activated[i] as int],
                sl.pq_codebook,
            ) ==> #[trigger] sl.experts@[activated[i] as int].row_ids@[j] != r,
    ensures
        with_experts(y, sl, x, activated, kind, n).len() == y.len(),
        with_experts(y, sl, x, activated, kind, n)[r] == y[r],
    decreases n,
{
    if n > 0 {
        lemma_untouched_row(y, sl, x, activated, kind, (n - 1) as nat, r);
        let p = with_experts(y, sl, x, activated, kind, (n - 1) as nat);
        assert(activated[n - 1] < sl.experts@.len());
        let e = sl.experts@[activated[n - 1] as int];
        let w = expert_width(e, sl.pq_codebook);
        assert(expert_ready(e, sl.pq_codebook, x.len(), sl.out_dim as nat));
        law_scattered_distinct(p, e.row_ids@, expert_values(e, sl.pq_codebook, x, kind), w);
        assert forall|j: int| 0 <= j < w implies (#[trigger] e.row_ids@[j]) != r by {
            assert(sl.experts@[activated[n - 1] as int].row_ids@[j] != r);
        }
    }
}

/// Only which experts are activated counts for the output of a layer, not in which order
/// they are found: each row belongs to one of them.
pub proof fn law_activation_order_irrelevant<T: Scalar>(
    sl: SparseLayer<T>,
    x: Seq<T>,
    a: Seq<usize>,
    b: Seq<usize>,
    kind: KernelKind,
)
    requires
        rows_owned(sl),
        layer_ready(sl, x.len(), a),
        layer_ready(sl, x.len(), b),
        a.no_duplicates(),
        b.no_duplicates(),
        forall|e: usize| #[trigger] a.contains(e) <==> b.contains(e),
    ensures
        sparse_output(sl, x, a, kind) == sparse_output(sl, x, b, kind),
{
    let y = core_output(sl, x, kind);
    let zeros = Seq::new(sl.out_dim as nat, |t: int| T::spec_zero());
    law_scattered_distinct(
        zeros,
        sl.core_row_ids@,
        core_values_by(sl.dense_core, sl.core_row_ids@.len(), x, kind),
        sl.core_row_ids@.len(),
    );
    let ya = with_experts(y, sl, x, a, kind, a.len());
    let yb = with_experts(y, sl, x, b, kind, b.len());
    lemma_experts_rows(y, sl, x, a, kind, a.len());
    lemma_experts_rows(y, sl, x, b, kind, b.len());
    assert forall|r: int| 0 <= r < y.len() implies ya[r] == yb[r] by {
        lemma_same_row(y, sl, x, a, b, kind, r);
    }
    assert(ya =~= yb);
    let n = sl.experts@.len();
    assert(activation_mask(a, n) =~= activation_mask(b, n));
}

proof fn lemma_same_row<T: Scalar>(
    y: Seq<T>,
    sl: SparseLayer<T>,
    x: Seq<T>,
    a: Seq<usize>,
    b: Seq<usize>,
    kind: KernelKind,
    r: int,
)
    requires
        rows_owned(sl),
        layer_ready(sl, x.len(), a),
        layer_ready(sl, x.len(), b),
        a.no_duplicates(),
        b.no_duplicates(),
        forall|e: usize| #[trigger] a.contains(e) <==> b.contains(e),
        y.len() == sl.out_dim,
        0 <= r < y.len(),
    ensures
        with_experts(y, sl, x, a, kind, a.len())[r] == with_experts(y, sl, x, b, kind, b.len())[r],
{
    lemma_experts_rows(y, sl, x, a, kind, a.len());
    lemma_experts_rows(y, sl, x, b, kind, b.len());
    if exists|i: int, j: int|
        0 <= i < a.len() && 0 <= j < expert_width(sl.experts@[a[i] as int], sl.pq_codebook)
            && #[trigger] sl.experts@[a[i] as int].row_ids@[j] == r {
        let (i, j) = choose|i: int, j: int|
            0 <= i < a.len() && 0 <= j < expert_width(sl.experts@[a[i] as int], sl.pq_codebook)
                && #[trigger] sl.experts@[a[i] as int].row_ids@[j] == r;
        assert(a.contains(a[i]));
        assert(b.contains(a[i]));
        let t = choose|t: int| 0 <= t < b.len() && b[t] == a[i];
        assert(sl.experts@[b[t] as int].row_ids@[j] == r);
    } else {
        lemma_untouched_row(y, sl, x, a, kind, a.len(), r);
        assert forall|i: int, j: int|
            0 <= i < b.len() && 0 <= j < expert_width(
                sl.experts@[b[i] as int],
                sl.pq_codebook,
            ) implies #[trigger] sl.experts@[b[i] as int].row_ids@[j] != r by {
            assert(b.contains(b[i]));
            assert(a.contains(b[i]));
            let t = choose|t: int| 0 <= t < a.len() && a[t] == b[i];
            assert(sl.experts@[a[t] as int].row_ids@[j] != r);
        }
        lemma_untouched_row(y, sl, x, b, kind, b.len(), r);
    }
}

} // verus!
