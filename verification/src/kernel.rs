//! Compute kernels: what one input adds to the output rows of a sparse layer.

use vstd::prelude::*;
use vstd::slice::slice_subrange;
use crate::scalar::{dot, dot_spec, products, sum_of, Scalar};
use crate::sparse::{lemma_entry_bounds, MicroExpert, PqCodebook};
use crate::tensor::{filled, lemma_row_index, row_of, Matrix};

verus! {

/// Which kernels to compute with. Where the machine has no vector instructions for the
/// numbers, all kinds compute with the reference kernels.
#[derive(Debug, Clone, Copy, PartialEq, Eq, Structural)]
pub enum KernelKind {
    /// The reference kernels, which add up in order.
    Scalar,
    /// The vector kernels, which add up in eight lanes, where the machine has them.
    Avx2,
    /// The vector kernels where the machine has them.
    Auto,
}

impl Default for KernelKind {
    fn default() -> (r: KernelKind)
        ensures
            r == KernelKind::Auto,
    {
        KernelKind::Auto
    }
}

impl KernelKind {
    /// Whether this kind computes numbers of the given type with the vector kernels.
    pub open spec fn in_lanes<T: Scalar>(self) -> bool {
        self != KernelKind::Scalar && T::spec_vectorised()
    }

    /// Whether this kind asks for the vector kernels, where the machine has them.
    pub fn use_avx2(self) -> (r: bool)
        ensures
            r == (self != KernelKind::Scalar),
    {
        self != KernelKind::Scalar
    }
}

/// `y` with `vals[i]` added to its entry `ids[i]`, for the first `n` values in
/// order.
pub open spec fn scattered<T: Scalar>(y: Seq<T>, ids: Seq<u32>, vals: Seq<T>, n: nat) -> Seq<T>
    decreases n,
{
    if n == 0 {
        y
    } else {
        let p = scattered(y, ids, vals, (n - 1) as nat);
        p.update(ids[n - 1] as int, p[ids[n - 1] as int].plus_spec(vals[n - 1]))
    }
}

/// Whether every id names an entry of an output of length `len`.
pub open spec fn ids_within(ids: Seq<u32>, len: nat) -> bool {
    forall|i: int| 0 <= i < ids.len() ==> (#[trigger] ids[i]) < len
}

pub proof fn lemma_scattered_len<T: Scalar>(y: Seq<T>, ids: Seq<u32>, vals: Seq<T>, n: nat)
    requires
        n <= ids.len(),
        ids_within(ids, y.len()),
    ensures
        scattered(y, ids, vals, n).len() == y.len(),
    decreases n,
{
    if n > 0 {
        assert(ids[n - 1] < y.len());
        lemma_scattered_len(y, ids, vals, (n - 1) as nat);
    }
}

/// Where the ids are distinct, each named entry gets its own value added once, and
/// every other entry stays as it was.
pub proof fn law_scattered_distinct<T: Scalar>(y: Seq<T>, ids: Seq<u32>, vals: Seq<T>, n: nat)
    requires
        n <= ids.len(),
        ids_within(ids, y.len()),
        ids.no_duplicates(),
    ensures
        scattered(y, ids, vals, n).len() == y.len(),
        forall|i: int|
            0 <= i < n ==> scattered(y, ids, vals, n)[(#[trigger] ids[i]) as int]
                == y[ids[i] as int].plus_spec(vals[i]),
        forall|r: int|
            0 <= r < y.len() && (forall|i: int| 0 <= i < n ==> (#[trigger] ids[i]) != r)
                ==> #[trigger] scattered(y, ids, vals, n)[r] == y[r],
    decreases n,
{
    lemma_scattered_len(y, ids, vals, n);
    if n > 0 {
        let m = (n - 1) as nat;
        law_scattered_distinct(y, ids, vals, m);
        lemma_scattered_len(y, ids, vals, m);
        let p = scattered(y, ids, vals, m);
        let last = ids[n - 1] as int;
        assert(p[last] == y[last]) by {
            assert forall|i: int| 0 <= i < m implies (#[trigger] ids[i]) != last by {
                assert(ids[i] != ids[n - 1]);
            }
        }
        assert forall|i: int| 0 <= i < n implies scattered(y, ids, vals, n)[(#[trigger] ids[i]) as int]
            == y[ids[i] as int].plus_spec(vals[i]) by {
            if i < n - 1 {
                assert(ids[i] != ids[n - 1]);
            }
        }
    }
}

/// What each core row contributes: its inner product with `x`.
pub open spec fn core_values<T: Scalar>(core: Matrix<T>, n: nat, x: Seq<T>) -> Seq<T> {
    Seq::new(n, |i: int| dot_spec(core.row_seq(i), x))
}

/// Adds to each core row's entry of `y` the inner product of that row with `x`.
pub fn compute_dense_core<T: Scalar>(core: &Matrix<T>, row_ids: &[u32], x: &[T], y: &mut [T])
    requires
        row_ids@.len() * core.cols <= core.data@.len(),
        core.cols <= x@.len(),
        ids_within(row_ids@, old(y)@.len()),
    ensures
        final(y)@ == scattered(
            old(y)@,
            row_ids@,
            core_values(*core, row_ids@.len(), x@),
            row_ids@.len(),
        ),
{
    let in_dim: usize = core.cols;
    let ghost y0 = y@;
    let ghost vals = core_values(*core, row_ids@.len(), x@);
    for i in 0..row_ids.len()
        invariant
            in_dim == core.cols,
            vals == core_values(*core, row_ids@.len(), x@),
            row_ids@.len() * core.cols <= core.data@.len(),
            ids_within(row_ids@, y0.len()),
            y@ == scattered(y0, row_ids@, vals, i as nat),
    {
        proof {
            lemma_row_index(row_ids@.len() as int, in_dim as int, i as int);
            lemma_scattered_len(y0, row_ids@, vals, i as nat);
            assert(core.data.len() == core.data@.len());
            assert(row_ids@[i as int] < y0.len());
        }
        let row = slice_subrange(core.data.as_slice(), i * in_dim, (i + 1) * in_dim);
        let s = dot(row, x);
        let rid: usize = row_ids[i] as usize;
        y[rid] = y[rid].plus(s);
    }
}

/// The sum over the first `n` numbers of `x`, each added, subtracted or skipped as
/// its code is positive, negative or zero.
pub open spec fn signed_sum<T: Scalar>(codes: Seq<i8>, x: Seq<T>, n: nat) -> T
    decreases n,
{
    if n == 0 {
        T::spec_zero()
    } else {
        let acc = signed_sum(codes, x, (n - 1) as nat);
        if codes[n - 1] > 0 {
            acc.plus_spec(x[n - 1])
        } else if codes[n - 1] < 0 {
            acc.minus_spec(x[n - 1])
        } else {
            acc
        }
    }
}

/// What each row of a ternary expert contributes.
pub open spec fn ternary_values<T: Scalar>(e: MicroExpert<T>, x: Seq<T>) -> Seq<T> {
    Seq::new(
        e.row_ids@.len(),
        |i: int|
            e.row_scales@[i].times_spec(
                signed_sum(row_of(e.ternary@, x.len() as int, i), x, x.len()),
            ),
    )
}

/// Whether a ternary expert has codes and scales for all its rows.
pub open spec fn ternary_ready<T>(e: MicroExpert<T>, in_dim: nat) -> bool {
    &&& e.row_ids@.len() <= e.row_scales@.len()
    &&& e.row_ids@.len() * in_dim <= e.ternary@.len()
}

/// The reference kernel for ternary experts: adds to each of the expert's entries
/// of `y` the row's scale times its signed sum of `x`.
pub fn compute_ternary_micro_expert_scalar<T: Scalar>(expert: &MicroExpert<T>, x: &[T], y: &mut [T])
    requires
        ternary_ready(*expert, x@.len()),
        ids_within(expert.row_ids@, old(y)@.len()),
    ensures
        final(y)@ == scattered(
            old(y)@,
            expert.row_ids@,
            ternary_values(*expert, x@),
            expert.row_ids@.len(),
        ),
{
    let in_dim: usize = x.len();
    let n_rows: usize = expert.row_ids.len();
    let ghost y0 = y@;
    let ghost vals = ternary_values(*expert, x@);
    for i in 0..n_rows
        invariant
            in_dim == x@.len(),
            n_rows == expert.row_ids@.len(),
            vals == ternary_values(*expert, x@),
            ternary_ready(*expert, x@.len()),
            ids_within(expert.row_ids@, y0.len()),
            y@ == scattered(y0, expert.row_ids@, vals, i as nat),
    {
        proof {
            lemma_row_index(n_rows as int, in_dim as int, i as int);
            lemma_scattered_len(y0, expert.row_ids@, vals, i as nat);
            assert(expert.ternary.len() == expert.ternary@.len());
            assert(expert.row_ids@[i as int] < y0.len());
        }
        let rid: usize = expert.row_ids[i] as usize;
        let scale = expert.row_scales[i];
        let codes = slice_subrange(expert.ternary.as_slice(), i * in_dim, (i + 1) * in_dim);
        let mut acc = T::zero();
        for j in 0..in_dim
            invariant
                in_dim == x@.len(),
                codes@.len() == in_dim,
                acc == signed_sum(codes@, x@, j as nat),
        {
            let c: i8 = codes[j];
            if c > 0 {
                acc = acc.plus(x[j]);
            } else if c < 0 {
                acc = acc.minus(x[j]);
            }
        }
        y[rid] = y[rid].plus(scale.times(acc));
    }
}

/// `y` with the bias added, entry by entry.
pub open spec fn biased<T: Scalar>(bias: Seq<T>, y: Seq<T>) -> Seq<T> {
    Seq::new(
        y.len(),
        |i: int|
            if i < bias.len() {
                y[i].plus_spec(bias[i])
            } else {
                y[i]
            },
    )
}

/// Adds the bias to every output row that has one.
pub fn apply_bias<T: Scalar>(bias: &[T], y: &mut [T])
    ensures
        final(y)@ == biased(bias@, old(y)@),
{
    let n: usize = if bias.len() < y.len() {
        bias.len()
    } else {
        y.len()
    };
    let ghost y0 = y@;
    for i in 0..n
        invariant
            n <= bias@.len(),
            n <= y0.len(),
            y@.len() == y0.len(),
            forall|j: int| 0 <= j < i ==> y@[j] == y0[j].plus_spec(bias@[j]),
            forall|j: int| i <= j < y0.len() ==> y@[j] == y0[j],
    {
        y[i] = y[i].plus(bias[i]);
    }
    assert(y@ =~= biased(bias@, y0));
}

/// Whether output row `i` belongs to an expert that is not activated.
pub open spec fn pruned(row_to_expert: Seq<i32>, activated: Seq<bool>, i: int) -> bool {
    &&& 0 <= i < row_to_expert.len()
    &&& row_to_expert[i] >= 0
    &&& !(row_to_expert[i] < activated.len() && activated[row_to_expert[i] as int])
}

/// `y` with the bias added to the rows of experts that are not activated.
pub open spec fn biased_pruned<T: Scalar>(
    bias: Seq<T>,
    y: Seq<T>,
    row_to_expert: Seq<i32>,
    activated: Seq<bool>,
) -> Seq<T> {
    Seq::new(
        y.len(),
        |i: int|
            if pruned(row_to_expert, activated, i) && i < bias.len() {
                y[i].plus_spec(bias[i])
            } else {
                y[i]
            },
    )
}

/// Whether output row `i` belongs to an expert that is not activated.
pub fn is_pruned(row_to_expert: &[i32], activated: &[bool], i: usize) -> (r: bool)
    requires
        i < row_to_expert@.len(),
    ensures
        r == pruned(row_to_expert@, activated@, i as int),
{
    let e: i32 = row_to_expert[i];
    if e < 0 {
        return false;
    }
    let e: usize = e as usize;
    !(e < activated.len() && activated[e])
}

/// Adds the bias to the rows of experts that are not activated. Core rows and the
/// rows of activated experts are computed, and get none.
pub fn apply_bias_pruned_only<T: Scalar>(
    bias: &[T],
    y: &mut [T],
    row_to_expert: &[i32],
    activated_set: &[bool],
)
    ensures
        final(y)@ == biased_pruned(bias@, old(y)@, row_to_expert@, activated_set@),
{
    let n: usize = if row_to_expert.len() < y.len() {
        row_to_expert.len()
    } else {
        y.len()
    };
    let ghost y0 = y@;
    let ghost goal = biased_pruned(bias@, y0, row_to_expert@, activated_set@);
    for i in 0..n
        invariant
            n <= row_to_expert@.len(),
            n <= y0.len(),
            goal == biased_pruned(bias@, y0, row_to_expert@, activated_set@),
            y@.len() == y0.len(),
            forall|j: int| 0 <= j < i ==> y@[j] == goal[j],
            forall|j: int| i <= j < y0.len() ==> y@[j] == y0[j],
    {
        if i < bias.len() && is_pruned(row_to_expert, activated_set, i) {
            y[i] = y[i].plus(bias[i]);
        }
    }
    assert(y@ =~= goal);
}

/// The entry that a code stands for: the last one, if the code is too high.
pub open spec fn entry_of_code<T>(cb: PqCodebook<T>, code: u8) -> int {
    if code < cb.entries() {
        code as int
    } else {
        cb.entries() - 1
    }
}

/// The row that a sequence of codes stands for: the entries, one behind the other.
pub open spec fn decoded<T>(codes: Seq<u8>, cb: PqCodebook<T>) -> Seq<T> {
    Seq::new(
        (cb.num_sub_vectors * cb.sub_dim) as nat,
        |k: int|
            cb.entry(k / (cb.sub_dim as int), entry_of_code(cb, codes[k / (cb.sub_dim as int)]))[k % (
            cb.sub_dim as int)],
    )
}

/// The number at place `j` of entry `m` of a decoded row.
pub proof fn lemma_decoded_at<T>(codes: Seq<u8>, cb: PqCodebook<T>, m: int, j: int)
    requires
        cb.wf(),
        0 <= m < cb.num_sub_vectors,
        0 <= j < cb.sub_dim,
    ensures
        0 <= m * cb.sub_dim + j < cb.num_sub_vectors * cb.sub_dim,
        decoded(codes, cb)[m * cb.sub_dim + j] == cb.entry(m, entry_of_code(cb, codes[m]))[j],
{
    let s = cb.sub_dim as int;
    crate::tensor::lemma_cell_index(cb.num_sub_vectors as int, s, m, j);
    vstd::arithmetic::div_mod::lemma_fundamental_div_mod_converse(m * s + j, s, m, j);
}

/// What each row of a product-quantised expert contributes: its scale times the
/// inner product of the decoded row with `x`.
pub open spec fn pq_values<T: Scalar>(e: MicroExpert<T>, x: Seq<T>, cb: PqCodebook<T>) -> Seq<T>
    recommends
        e.pq is Some,
{
    let pq = e.pq->0;
    Seq::new(
        pq.row_scales@.len(),
        |i: int|
            pq.row_scales@[i].times_spec(
                dot_spec(decoded(row_of(pq.codes@, pq.num_sub_vectors as int, i), cb), x),
            ),
    )
}

/// Whether a product-quantised expert has codes for all its rows and fits its
/// codebook and the input.
pub open spec fn pq_ready<T>(e: MicroExpert<T>, in_dim: nat, cb: PqCodebook<T>) -> bool {
    e.pq matches Some(pq) ==> {
        &&& pq.row_scales@.len() <= e.row_ids@.len()
        &&& pq.row_scales@.len() * pq.num_sub_vectors <= pq.codes@.len()
        &&& cb.wf()
        &&& cb.num_sub_vectors == pq.num_sub_vectors
        &&& cb.num_sub_vectors * cb.sub_dim == in_dim
    }
}

/// The reference kernel for product-quantised experts: adds to each of the expert's
/// entries of `y` the row's scale times the inner product of the decoded row with
/// `x`. An expert without product-quantised rows adds nothing.
pub fn compute_pq_micro_expert_scalar<T: Scalar>(
    expert: &MicroExpert<T>,
    x: &[T],
    y: &mut [T],
    codebook: &PqCodebook<T>,
)
    requires
        pq_ready(*expert, x@.len(), *codebook),
        ids_within(expert.row_ids@, old(y)@.len()),
    ensures
        expert.pq is None ==> final(y)@ == old(y)@,
        expert.pq matches Some(pq) ==> final(y)@ == scattered(
            old(y)@,
            expert.row_ids@,
            pq_values(*expert, x@, *codebook),
            pq.row_scales@.len(),
        ),
{
    let pq = match &expert.pq {
        Some(p) => p,
        None => return ,
    };
    let m: usize = pq.num_sub_vectors;
    let sub_dim: usize = codebook.sub_dim;
    let n_entries: usize = codebook.num_entries();
    let ghost y0 = y@;
    let ghost vals = pq_values(*expert, x@, *codebook);
    for i in 0..pq.row_scales.len()
        invariant
            expert.pq == Some(*pq),
            pq_ready(*expert, x@.len(), *codebook),
            m == pq.num_sub_vectors,
            sub_dim == codebook.sub_dim,
            n_entries == codebook.entries(),
            n_entries >= 1,
            vals == pq_values(*expert, x@, *codebook),
            ids_within(expert.row_ids@, y0.len()),
            y@ == scattered(y0, expert.row_ids@, vals, i as nat),
    {
        proof {
            lemma_row_index(pq.row_scales@.len() as int, m as int, i as int);
            lemma_scattered_len(y0, expert.row_ids@, vals, i as nat);
            assert(pq.codes.len() == pq.codes@.len());
            assert(expert.row_ids@[i as int] < y0.len());
        }
        let rid: usize = expert.row_ids[i] as usize;
        let scale = pq.row_scales[i];
        let codes = slice_subrange(pq.codes.as_slice(), i * m, (i + 1) * m);
        let ghost row = decoded(codes@, *codebook);
        let ghost terms = products(row, x@);
        let mut acc = T::zero();
        assert(0 * sub_dim == 0) by (nonlinear_arith);
        for sm in 0..m
            invariant
                codes@.len() == m,
                codebook.wf(),
                m == codebook.num_sub_vectors,
                m * sub_dim == x@.len(),
                sub_dim == codebook.sub_dim,
                n_entries == codebook.entries(),
                n_entries >= 1,
                row == decoded(codes@, *codebook),
                terms == products(row, x@),
                acc == sum_of(terms, (sm * sub_dim) as nat),
        {
            let code: usize = codes[sm] as usize;
            let c: usize = if code < n_entries {
                code
            } else {
                n_entries - 1
            };
            proof {
                lemma_entry_bounds(*codebook, sm as int, c as int);
                assert(codebook.codebook.len() == codebook.codebook@.len());
                assert(x.len() == x@.len());
                assert(0 <= sm * n_entries) by (nonlinear_arith);
            }
            let base: usize = (sm * n_entries + c) * sub_dim;
            let xbase: usize = sm * sub_dim;
            for j in 0..sub_dim
                invariant
                    codes@.len() == m,
                    sm < m,
                    codebook.wf(),
                    m == codebook.num_sub_vectors,
                    m * sub_dim == x@.len(),
                    sub_dim == codebook.sub_dim,
                    0 <= c < codebook.entries(),
                    c == entry_of_code(*codebook, codes@[sm as int]),
                    base == codebook.entry_start(sm as int, c as int),
                    base + sub_dim <= codebook.codebook@.len(),
                    xbase == sm * sub_dim,
                    xbase + sub_dim <= x@.len(),
                    row == decoded(codes@, *codebook),
                    terms == products(row, x@),
                    acc == sum_of(terms, (xbase + j) as nat),
            {
                proof {
                    assert(codebook.codebook.len() == codebook.codebook@.len());
                    assert(x.len() == x@.len());
                    lemma_decoded_at(codes@, *codebook, sm as int, j as int);
                    assert(row.len() == x@.len());
                    assert(codebook.entry(sm as int, c as int)[j as int] == codebook.codebook@[base
                        + j]);
                    assert(terms[xbase + j] == row[xbase + j].times_spec(x@[xbase + j]));
                }
                acc = acc.plus(codebook.codebook[base + j].times(x[xbase + j]));
            }
        }
        proof {
            assert(terms.len() == x@.len());
            assert(codes@ == row_of(pq.codes@, m as int, i as int));
        }
        y[rid] = y[rid].plus(scale.times(acc));
    }
}

/// Eight numbers from place `at`, added up from left to right.
pub open spec fn sum_of_eight<T: Scalar>(t: Seq<T>, at: int) -> T {
    t[at].plus_spec(t[at + 1]).plus_spec(t[at + 2]).plus_spec(t[at + 3]).plus_spec(
        t[at + 4],
    ).plus_spec(t[at + 5]).plus_spec(t[at + 6]).plus_spec(t[at + 7])
}

/// What a lane holds for a code and a number: the number, its negative, or zero.
pub open spec fn lane_value<T: Scalar>(code: i8, x: T) -> T {
    (if code > 0 {
        x
    } else {
        T::spec_zero()
    }).minus_spec(
        if code < 0 {
            x
        } else {
            T::spec_zero()
        },
    )
}

/// What the lanes hold for all codes.
pub open spec fn lane_values<T: Scalar>(codes: Seq<i8>, x: Seq<T>) -> Seq<T> {
    Seq::new(x.len(), |i: int| lane_value(codes[i], x[i]))
}

/// The sums of the first `k` groups of eight, added up.
pub open spec fn groups_sum<T: Scalar>(t: Seq<T>, k: nat) -> T
    decreases k,
{
    if k == 0 {
        T::spec_zero()
    } else {
        groups_sum(t, (k - 1) as nat).plus_spec(sum_of_eight(t, 8 * (k - 1)))
    }
}

/// The signed sum up to place `n`: whole groups of eight in lanes, and from place `from` on
/// one by one.
pub open spec fn signed_tail<T: Scalar>(codes: Seq<i8>, x: Seq<T>, from: nat, n: nat) -> T
    decreases n,
{
    if n <= from {
        groups_sum(lane_values(codes, x), from / 8)
    } else {
        let acc = signed_tail(codes, x, from, (n - 1) as nat);
        if codes[n - 1] > 0 {
            acc.plus_spec(x[n - 1])
        } else if codes[n - 1] < 0 {
            acc.minus_spec(x[n - 1])
        } else {
            acc
        }
    }
}

/// Where the whole groups of eight end.
pub open spec fn groups_end(n: nat) -> nat {
    n / 8 * 8
}

/// The signed sum of all numbers, in lanes.
pub open spec fn lane_signed_sum<T: Scalar>(codes: Seq<i8>, x: Seq<T>) -> T {
    signed_tail(codes, x, groups_end(x.len()), x.len())
}

/// What each row of a ternary expert contributes, in lanes.
pub open spec fn ternary_values_lanes<T: Scalar>(e: MicroExpert<T>, x: Seq<T>) -> Seq<T> {
    Seq::new(
        e.row_ids@.len(),
        |i: int|
            e.row_scales@[i].times_spec(
                lane_signed_sum(row_of(e.ternary@, x.len() as int, i), x),
            ),
    )
}

/// What each row of a ternary expert contributes, with the given kernels.
pub open spec fn ternary_values_by<T: Scalar>(e: MicroExpert<T>, x: Seq<T>, kind: KernelKind) -> Seq<T> {
    if kind.in_lanes::<T>() {
        ternary_values_lanes(e, x)
    } else {
        ternary_values(e, x)
    }
}

/// What a lane holds, computed.
fn lane<T: Scalar>(code: i8, x: T) -> (r: T)
    ensures
        r == lane_value(code, x),
{
    let pos = if code > 0 {
        x
    } else {
        T::zero()
    };
    let neg = if code < 0 {
        x
    } else {
        T::zero()
    };
    pos.minus(neg)
}

/// The signed sum of all numbers, computed in lanes.
fn sum_in_lanes<T: Scalar>(codes: &[i8], x: &[T]) -> (r: T)
    requires
        codes@.len() == x@.len(),
    ensures
        r == lane_signed_sum(codes@, x@),
{
    let n: usize = x.len();
    let ghost t = lane_values(codes@, x@);
    let mut sum = T::zero();
    let mut j: usize = 0;
    while 8 <= n - j
        invariant
            n == x@.len(),
            codes@.len() == n,
            j <= n,
            j % 8 == 0,
            t == lane_values(codes@, x@),
            sum == groups_sum(t, (j / 8) as nat),
        decreases n - j,
    {
        let mut chunk = lane(codes[j], x[j]);
        chunk = chunk.plus(lane(codes[j + 1], x[j + 1]));
        chunk = chunk.plus(lane(codes[j + 2], x[j + 2]));
        chunk = chunk.plus(lane(codes[j + 3], x[j + 3]));
        chunk = chunk.plus(lane(codes[j + 4], x[j + 4]));
        chunk = chunk.plus(lane(codes[j + 5], x[j + 5]));
        chunk = chunk.plus(lane(codes[j + 6], x[j + 6]));
        chunk = chunk.plus(lane(codes[j + 7], x[j + 7]));
        assert(chunk == sum_of_eight(t, j as int));
        sum = sum.plus(chunk);
        assert((j + 8) / 8 == j / 8 + 1);
        j = j + 8;
    }
    let ghost from = j as nat;
    assert(from == groups_end(n as nat));
    while j < n
        invariant
            n == x@.len(),
            codes@.len() == n,
            from <= j <= n,
            sum == signed_tail(codes@, x@, from, j as nat),
        decreases n - j,
    {
        let c: i8 = codes[j];
        if c > 0 {
            sum = sum.plus(x[j]);
        } else if c < 0 {
            sum = sum.minus(x[j]);
        }
        j = j + 1;
    }
    sum
}

/// The vector kernel for ternary experts: adds to each of the expert's entries of `y` the
/// row's scale times its signed sum of `x`, which it adds up in eight lanes.
pub fn compute_ternary_micro_expert_avx2<T: Scalar>(expert: &MicroExpert<T>, x: &[T], y: &mut [T])
    requires
        ternary_ready(*expert, x@.len()),
        ids_within(expert.row_ids@, old(y)@.len()),
    ensures
        final(y)@ == scattered(
            old(y)@,
            expert.row_ids@,
            ternary_values_lanes(*expert, x@),
            expert.row_ids@.len(),
        ),
{
    let in_dim: usize = x.len();
    let n_rows: usize = expert.row_ids.len();
    let ghost y0 = y@;
    let ghost vals = ternary_values_lanes(*expert, x@);
    for i in 0..n_rows
        invariant
            in_dim == x@.len(),
            n_rows == expert.row_ids@.len(),
            vals == ternary_values_lanes(*expert, x@),
            ternary_ready(*expert, x@.len()),
            ids_within(expert.row_ids@, y0.len()),
            y@ == scattered(y0, expert.row_ids@, vals, i as nat),
    {
        proof {
            lemma_row_index(n_rows as int, in_dim as int, i as int);
            lemma_scattered_len(y0, expert.row_ids@, vals, i as nat);
            assert(expert.ternary.len() == expert.ternary@.len());
            assert(expert.row_ids@[i as int] < y0.len());
        }
        let rid: usize = expert.row_ids[i] as usize;
        let scale = expert.row_scales[i];
        let codes = slice_subrange(expert.ternary.as_slice(), i * in_dim, (i + 1) * in_dim);
        let sum = sum_in_lanes(codes, x);
        y[rid] = y[rid].plus(scale.times(sum));
    }
}

/// What lane `k` holds after the first `c` groups of eight: the products of its places, each
/// added without rounding it first.
pub open spec fn lane_acc<T: Scalar>(row: Seq<T>, x: Seq<T>, k: int, c: nat) -> T
    decreases c,
{
    if c == 0 {
        T::spec_zero()
    } else {
        row[8 * (c - 1) + k].times_plus_spec(
            x[8 * (c - 1) + k],
            lane_acc(row, x, k, (c - 1) as nat),
        )
    }
}

/// The eight lanes after the first `c` groups.
pub open spec fn lane_accs<T: Scalar>(row: Seq<T>, x: Seq<T>, c: nat) -> Seq<T> {
    Seq::new(8, |k: int| lane_acc(row, x, k, c))
}

/// The inner product up to place `n`: whole groups of eight in lanes, and from place `from`
/// on one by one.
pub open spec fn dot_tail<T: Scalar>(row: Seq<T>, x: Seq<T>, from: nat, n: nat) -> T
    decreases n,
{
    if n <= from {
        sum_of_eight(lane_accs(row, x, from / 8), 0)
    } else {
        dot_tail(row, x, from, (n - 1) as nat).plus_spec(row[n - 1].times_spec(x[n - 1]))
    }
}

/// The inner product of a row with as many numbers of `x`, in lanes.
pub open spec fn lane_dot<T: Scalar>(row: Seq<T>, x: Seq<T>) -> T {
    dot_tail(row, x, groups_end(row.len()), row.len())
}

/// What each core row contributes, in lanes.
pub open spec fn core_values_lanes<T: Scalar>(core: Matrix<T>, n: nat, x: Seq<T>) -> Seq<T> {
    Seq::new(n, |i: int| lane_dot(core.row_seq(i), x))
}

/// What each core row contributes, with the given kernels.
pub open spec fn core_values_by<T: Scalar>(
    core: Matrix<T>,
    n: nat,
    x: Seq<T>,
    kind: KernelKind,
) -> Seq<T> {
    if kind.in_lanes::<T>() {
        core_values_lanes(core, n, x)
    } else {
        core_values(core, n, x)
    }
}

/// The inner product of a row with as many numbers of `x`, computed in lanes.
fn dot_in_lanes<T: Scalar>(row: &[T], x: &[T]) -> (r: T)
    requires
        row@.len() <= x@.len(),
    ensures
        r == lane_dot(row@, x@),
{
    let n: usize = row.len();
    let mut lanes: Vec<T> = filled(8, T::zero());
    let mut j: usize = 0;
    assert(lanes@ =~= lane_accs(row@, x@, 0));
    while 8 <= n - j
        invariant
            n == row@.len(),
            n <= x@.len(),
            j <= n,
            j % 8 == 0,
            lanes@ == lane_accs(row@, x@, (j / 8) as nat),
        decreases n - j,
    {
        let ghost before = lanes@;
        for k in 0..8usize
            invariant
                n == row@.len(),
                n <= x@.len(),
                j + 8 <= n,
                j % 8 == 0,
                before == lane_accs(row@, x@, (j / 8) as nat),
                lanes@.len() == 8,
                forall|q: int|
                    0 <= q < k ==> lanes@[q] == lane_acc(row@, x@, q, (j / 8 + 1) as nat),
                forall|q: int| k <= q < 8 ==> lanes@[q] == before[q],
        {
            let ghost now = lanes@;
            let next = row[j + k].times_plus(x[j + k], lanes[k]);
            lanes[k] = next;
            proof {
                assert(lanes@ == now.update(k as int, next));
                assert(now[k as int] == before[k as int]);
                let c = (j / 8 + 1) as nat;
                assert(8 * (c - 1) + k == j + k);
                assert(lane_acc(row@, x@, k as int, c) == row@[8 * (c - 1) + k].times_plus_spec(
                    x@[8 * (c - 1) + k],
                    lane_acc(row@, x@, k as int, (c - 1) as nat),
                ));
                assert(before[k as int] == lane_acc(row@, x@, k as int, (c - 1) as nat));
                assert(next == lane_acc(row@, x@, k as int, c));
            }
        }
        assert((j + 8) / 8 == j / 8 + 1);
        assert(lanes@ =~= lane_accs(row@, x@, (j / 8 + 1) as nat));
        j = j + 8;
    }
    let mut s = lanes[0].plus(lanes[1]).plus(lanes[2]).plus(lanes[3]).plus(lanes[4]).plus(
        lanes[5],
    ).plus(lanes[6]).plus(lanes[7]);
    let ghost from = j as nat;
    assert(from == groups_end(n as nat));
    while j < n
        invariant
            n == row@.len(),
            n <= x@.len(),
            from <= j <= n,
            s == dot_tail(row@, x@, from, j as nat),
        decreases n - j,
    {
        s = s.plus(row[j].times(x[j]));
        j = j + 1;
    }
    s
}

/// The vector kernel for the dense core: adds to each core row's entry of `y` the inner
/// product of that row with `x`, which it adds up in eight lanes.
pub fn compute_dense_core_avx2<T: Scalar>(core: &Matrix<T>, row_ids: &[u32], x: &[T], y: &mut [T])
    requires
        row_ids@.len() * core.cols <= core.data@.len(),
        core.cols <= x@.len(),
        ids_within(row_ids@, old(y)@.len()),
    ensures
        final(y)@ == scattered(
            old(y)@,
            row_ids@,
            core_values_lanes(*core, row_ids@.len(), x@),
            row_ids@.len(),
        ),
{
    let in_dim: usize = core.cols;
    let ghost y0 = y@;
    let ghost vals = core_values_lanes(*core, row_ids@.len(), x@);
    for i in 0..row_ids.len()
        invariant
            in_dim == core.cols,
            core.cols <= x@.len(),
            vals == core_values_lanes(*core, row_ids@.len(), x@),
            row_ids@.len() * core.cols <= core.data@.len(),
            ids_within(row_ids@, y0.len()),
            y@ == scattered(y0, row_ids@, vals, i as nat),
    {
        proof {
            lemma_row_index(row_ids@.len() as int, in_dim as int, i as int);
            lemma_scattered_len(y0, row_ids@, vals, i as nat);
            assert(core.data.len() == core.data@.len());
            assert(row_ids@[i as int] < y0.len());
        }
        let row = slice_subrange(core.data.as_slice(), i * in_dim, (i + 1) * in_dim);
        let s = dot_in_lanes(row, x);
        let rid: usize = row_ids[i] as usize;
        y[rid] = y[rid].plus(s);
    }
}

/// Dense core with the given kernels.
pub fn compute_dense_core_dispatch<T: Scalar>(
    core: &Matrix<T>,
    row_ids: &[u32],
    x: &[T],
    y: &mut [T],
    kind: KernelKind,
)
    requires
        row_ids@.len() * core.cols <= core.data@.len(),
        core.cols <= x@.len(),
        ids_within(row_ids@, old(y)@.len()),
    ensures
        final(y)@ == scattered(
            old(y)@,
            row_ids@,
            core_values_by(*core, row_ids@.len(), x@, kind),
            row_ids@.len(),
        ),
{
    if kind.use_avx2() && T::vectorised() {
        compute_dense_core_avx2(core, row_ids, x, y);
    } else {
        compute_dense_core(core, row_ids, x, y);
    }
}

/// Ternary expert with the given kernels.
pub fn compute_ternary_micro_expert_dispatch<T: Scalar>(
    expert: &MicroExpert<T>,
    x: &[T],
    y: &mut [T],
    kind: KernelKind,
)
    requires
        ternary_ready(*expert, x@.len()),
        ids_within(expert.row_ids@, old(y)@.len()),
    ensures
        final(y)@ == scattered(
            old(y)@,
            expert.row_ids@,
            ternary_values_by(*expert, x@, kind),
            expert.row_ids@.len(),
        ),
{
    if kind.use_avx2() && T::vectorised() {
        compute_ternary_micro_expert_avx2(expert, x, y);
    } else {
        compute_ternary_micro_expert_scalar(expert, x, y);
    }
}

/// Product-quantised expert with the given kernels. There is one kernel for all of them.
pub fn compute_pq_micro_expert_dispatch<T: Scalar>(
    expert: &MicroExpert<T>,
    x: &[T],
    y: &mut [T],
    codebook: &PqCodebook<T>,
    kind: KernelKind,
)
    requires
        pq_ready(*expert, x@.len(), *codebook),
        ids_within(expert.row_ids@, old(y)@.len()),
    ensures
        expert.pq is None ==> final(y)@ == old(y)@,
        expert.pq matches Some(pq) ==> final(y)@ == scattered(
            old(y)@,
            expert.row_ids@,
            pq_values(*expert, x@, *codebook),
            pq.row_scales@.len(),
        ),
{
    compute_pq_micro_expert_scalar(expert, x, y, codebook);
}

/// Whether sums do not depend on the order in which they are added up, nor on whether
/// products are rounded before they are added.
#[verifier::opaque]
pub open spec fn adds_exactly<T: Scalar>() -> bool {
    &&& forall|a: T, b: T, c: T| #[trigger]
        a.plus_spec(b).plus_spec(c) == a.plus_spec(b.plus_spec(c))
    &&& forall|a: T, b: T| #[trigger] a.plus_spec(b) == b.plus_spec(a)
    &&& forall|a: T| #[trigger] T::spec_zero().plus_spec(a) == a
    &&& forall|a: T| #[trigger] a.minus_spec(T::spec_zero()) == a
    &&& forall|a: T, b: T| #[trigger]
        a.minus_spec(b) == a.plus_spec(T::spec_zero().minus_spec(b))
    &&& forall|a: T, b: T, c: T| #[trigger]
        a.times_plus_spec(b, c) == a.times_spec(b).plus_spec(c)
}

/// Sums of machine integers, which wrap around, do not depend on their order.
pub proof fn law_integers_add_exactly()
    ensures
        adds_exactly::<i64>(),
{
    reveal(adds_exactly);
    assert forall|a: i64, b: i64, c: i64| #[trigger]
        a.plus_spec(b).plus_spec(c) == a.plus_spec(b.plus_spec(c)) by {}
    assert forall|a: i64, b: i64| #[trigger] a.plus_spec(b) == b.plus_spec(a) by {}
    assert forall|a: i64| #[trigger] i64::spec_zero().plus_spec(a) == a by {}
    assert forall|a: i64| #[trigger] a.minus_spec(i64::spec_zero()) == a by {}
    assert forall|a: i64, b: i64| #[trigger]
        a.minus_spec(b) == a.plus_spec(i64::spec_zero().minus_spec(b)) by {}
    assert forall|a: i64, b: i64, c: i64| #[trigger]
        a.times_plus_spec(b, c) == a.times_spec(b).plus_spec(c) by {}
}

proof fn lemma_plus_groups<T: Scalar>(a: T, b: T, c: T)
    requires
        adds_exactly::<T>(),
    ensures
        a.plus_spec(b).plus_spec(c) == a.plus_spec(b.plus_spec(c)),
{
    reveal(adds_exactly);
}

proof fn lemma_plus_swaps<T: Scalar>(a: T, b: T)
    requires
        adds_exactly::<T>(),
    ensures
        a.plus_spec(b) == b.plus_spec(a),
{
    reveal(adds_exactly);
}

/// Zero can be left out of sums and differences.
pub proof fn lemma_plus_zero<T: Scalar>(a: T)
    requires
        adds_exactly::<T>(),
    ensures
        T::spec_zero().plus_spec(a) == a,
        a.plus_spec(T::spec_zero()) == a,
        a.minus_spec(T::spec_zero()) == a,
{
    reveal(adds_exactly);
    assert(a.plus_spec(T::spec_zero()) == T::spec_zero().plus_spec(a));
}

proof fn lemma_minus<T: Scalar>(a: T, b: T)
    requires
        adds_exactly::<T>(),
    ensures
        a.minus_spec(b) == a.plus_spec(T::spec_zero().minus_spec(b)),
{
    reveal(adds_exactly);
}

proof fn lemma_fused<T: Scalar>(a: T, b: T, c: T)
    requires
        adds_exactly::<T>(),
    ensures
        a.times_plus_spec(b, c) == a.times_spec(b).plus_spec(c),
{
    reveal(adds_exactly);
}

/// Four summands in another order.
proof fn lemma_four<T: Scalar>(a: T, b: T, c: T, d: T)
    requires
        adds_exactly::<T>(),
    ensures
        a.plus_spec(b).plus_spec(c.plus_spec(d)) == a.plus_spec(c).plus_spec(b.plus_spec(d)),
{
    lemma_plus_groups(a, b, c.plus_spec(d));
    lemma_plus_groups(b, c, d);
    lemma_plus_swaps(b, c);
    lemma_plus_groups(c, b, d);
    lemma_plus_groups(a, c, b.plus_spec(d));
}

/// Adding eight numbers one by one adds their sum.
proof fn lemma_eight_more<T: Scalar>(t: Seq<T>, at: nat)
    requires
        adds_exactly::<T>(),
        at + 8 <= t.len(),
    ensures
        sum_of(t, at + 8) == sum_of(t, at).plus_spec(sum_of_eight(t, at as int)),
{
    let s = sum_of(t, at);
    let i = at as int;
    let p1 = t[i];
    let p2 = p1.plus_spec(t[i + 1]);
    let p3 = p2.plus_spec(t[i + 2]);
    let p4 = p3.plus_spec(t[i + 3]);
    let p5 = p4.plus_spec(t[i + 4]);
    let p6 = p5.plus_spec(t[i + 5]);
    let p7 = p6.plus_spec(t[i + 6]);
    lemma_plus_groups(s, p1, t[i + 1]);
    lemma_plus_groups(s, p2, t[i + 2]);
    lemma_plus_groups(s, p3, t[i + 3]);
    lemma_plus_groups(s, p4, t[i + 4]);
    lemma_plus_groups(s, p5, t[i + 5]);
    lemma_plus_groups(s, p6, t[i + 6]);
    lemma_plus_groups(s, p7, t[i + 7]);
    assert(sum_of(t, at + 1) == s.plus_spec(p1));
    assert(sum_of(t, at + 2) == s.plus_spec(p2));
    assert(sum_of(t, at + 3) == s.plus_spec(p3));
    assert(sum_of(t, at + 4) == s.plus_spec(p4));
    assert(sum_of(t, at + 5) == s.plus_spec(p5));
    assert(sum_of(t, at + 6) == s.plus_spec(p6));
    assert(sum_of(t, at + 7) == s.plus_spec(p7));
}

proof fn lemma_groups_sum<T: Scalar>(t: Seq<T>, k: nat)
    requires
        adds_exactly::<T>(),
        8 * k <= t.len(),
    ensures
        groups_sum(t, k) == sum_of(t, 8 * k),
    decreases k,
{
    if k > 0 {
        lemma_groups_sum(t, (k - 1) as nat);
        lemma_eight_more(t, (8 * (k - 1)) as nat);
    }
}

/// One step of a signed sum adds what the lane holds.
proof fn lemma_signed_step<T: Scalar>(acc: T, code: i8, x: T)
    requires
        adds_exactly::<T>(),
    ensures
        acc.plus_spec(lane_value(code, x)) == if code > 0 {
            acc.plus_spec(x)
        } else if code < 0 {
            acc.minus_spec(x)
        } else {
            acc
        },
{
    lemma_plus_zero(x);
    lemma_plus_zero(acc);
    lemma_plus_zero(T::spec_zero());
    lemma_minus(acc, x);
}

/// A signed sum is the sum of what the lanes hold.
pub proof fn lemma_signed_is_sum<T: Scalar>(codes: Seq<i8>, x: Seq<T>, n: nat)
    requires
        adds_exactly::<T>(),
        n <= x.len(),
    ensures
        signed_sum(codes, x, n) == sum_of(lane_values(codes, x), n),
    decreases n,
{
    if n > 0 {
        lemma_signed_is_sum(codes, x, (n - 1) as nat);
        lemma_signed_step(signed_sum(codes, x, (n - 1) as nat), codes[n - 1], x[n - 1]);
    }
}

proof fn lemma_tail_is_sum<T: Scalar>(codes: Seq<i8>, x: Seq<T>, n: nat)
    requires
        adds_exactly::<T>(),
        groups_end(x.len()) <= n <= x.len(),
    ensures
        signed_tail(codes, x, groups_end(x.len()), n) == sum_of(lane_values(codes, x), n),
    decreases n,
{
    let from = groups_end(x.len());
    if n <= from {
        assert(from / 8 * 8 == from);
        lemma_groups_sum(lane_values(codes, x), from / 8);
    } else {
        lemma_tail_is_sum(codes, x, (n - 1) as nat);
        lemma_signed_step(
            signed_tail(codes, x, from, (n - 1) as nat),
            codes[n - 1],
            x[n - 1],
        );
    }
}

/// Two rows of eight, added up apart or place by place.
proof fn lemma_eight_pairs<T: Scalar>(a: Seq<T>, at: int, b: Seq<T>, s: Seq<T>)
    requires
        adds_exactly::<T>(),
        forall|k: int| 0 <= k < 8 ==> #[trigger] s[k] == a[at + k].plus_spec(b[k]),
    ensures
        sum_of_eight(s, 0) == sum_of_eight(a, at).plus_spec(sum_of_eight(b, 0)),
{
    assert(s[0] == a[at + 0].plus_spec(b[0]));
    assert(s[1] == a[at + 1].plus_spec(b[1]));
    assert(s[2] == a[at + 2].plus_spec(b[2]));
    assert(s[3] == a[at + 3].plus_spec(b[3]));
    assert(s[4] == a[at + 4].plus_spec(b[4]));
    assert(s[5] == a[at + 5].plus_spec(b[5]));
    assert(s[6] == a[at + 6].plus_spec(b[6]));
    assert(s[7] == a[at + 7].plus_spec(b[7]));
    let a2 = a[at].plus_spec(a[at + 1]);
    let a3 = a2.plus_spec(a[at + 2]);
    let a4 = a3.plus_spec(a[at + 3]);
    let a5 = a4.plus_spec(a[at + 4]);
    let a6 = a5.plus_spec(a[at + 5]);
    let a7 = a6.plus_spec(a[at + 6]);
    let b2 = b[0].plus_spec(b[1]);
    let b3 = b2.plus_spec(b[2]);
    let b4 = b3.plus_spec(b[3]);
    let b5 = b4.plus_spec(b[4]);
    let b6 = b5.plus_spec(b[5]);
    let b7 = b6.plus_spec(b[6]);
    lemma_four(a[at], b[0], a[at + 1], b[1]);
    lemma_four(a2, b2, a[at + 2], b[2]);
    lemma_four(a3, b3, a[at + 3], b[3]);
    lemma_four(a4, b4, a[at + 4], b[4]);
    lemma_four(a5, b5, a[at + 5], b[5]);
    lemma_four(a6, b6, a[at + 6], b[6]);
    lemma_four(a7, b7, a[at + 7], b[7]);
}

proof fn lemma_lanes_sum<T: Scalar>(row: Seq<T>, x: Seq<T>, c: nat)
    requires
        adds_exactly::<T>(),
        row.len() <= x.len(),
        8 * c <= row.len(),
    ensures
        sum_of_eight(lane_accs(row, x, c), 0) == sum_of(products(row, x), 8 * c),
    decreases c,
{
    let p = products(row, x);
    let s = lane_accs(row, x, c);
    if c == 0 {
        lemma_plus_zero(T::spec_zero());
        assert(forall|k: int| 0 <= k < 8 ==> #[trigger] s[k] == T::spec_zero());
    } else {
        let b = lane_accs(row, x, (c - 1) as nat);
        let at = 8 * (c - 1);
        assert forall|k: int| 0 <= k < 8 implies #[trigger] s[k] == p[at + k].plus_spec(b[k]) by {
            assert(p[at + k] == row[at + k].times_spec(x[at + k]));
            lemma_fused(row[at + k], x[at + k], b[k]);
        }
        lemma_eight_pairs(p, at, b, s);
        lemma_lanes_sum(row, x, (c - 1) as nat);
        lemma_plus_swaps(sum_of_eight(p, at), sum_of(p, at as nat));
        lemma_eight_more(p, at as nat);
    }
}

proof fn lemma_dot_tail<T: Scalar>(row: Seq<T>, x: Seq<T>, n: nat)
    requires
        adds_exactly::<T>(),
        row.len() <= x.len(),
        groups_end(row.len()) <= n <= row.len(),
    ensures
        dot_tail(row, x, groups_end(row.len()), n) == sum_of(products(row, x), n),
    decreases n,
{
    let from = groups_end(row.len());
    if n <= from {
        assert(from / 8 * 8 == from);
        lemma_lanes_sum(row, x, from / 8);
    } else {
        lemma_dot_tail(row, x, (n - 1) as nat);
        assert(products(row, x)[n - 1] == row[n - 1].times_spec(x[n - 1]));
    }
}

/// Where sums are exact, the vector kernels compute what the reference
/// kernels compute: for each row of a ternary expert, and for each row of the core.
pub proof fn law_lanes_agree<T: Scalar>(codes: Seq<i8>, row: Seq<T>, x: Seq<T>)
    requires
        adds_exactly::<T>(),
        row.len() <= x.len(),
    ensures
        lane_signed_sum(codes, x) == signed_sum(codes, x, x.len()),
        lane_dot(row, x) == dot_spec(row, x),
{
    lemma_tail_is_sum(codes, x, x.len());
    lemma_signed_is_sum(codes, x, x.len());
    lemma_dot_tail(row, x, row.len());
    assert(products(row, x).len() == row.len());
}

} // verus!
