//! Sparse layers: what transmuting a dense weight matrix gives, and what the
//! sparse forward pass runs on.
//!
//! A [`SparseLayer`] stands for one weight matrix `W [out, in]`. It splits the
//! output rows of `W` into
//!
//! - a dense core of outlier rows, kept as they are and always active;
//! - micro-experts, each with a group of the other rows in quantised form;
//! - a static bias that stands in for the experts that are not activated.

use vstd::prelude::*;
use vstd::arithmetic::power2::{
    lemma_pow2_pos, lemma_pow2_strictly_increases, lemma_pow2_unfold, pow2,
};
use crate::scalar::Scalar;
use crate::tensor::Matrix;

verus! {

/// The sizes of a model, stored beside its transmuted layers.
#[derive(Debug, Clone, PartialEq, Eq)]
pub struct ConfigStub {
    pub vocab_size: usize,
    pub dim: usize,
    pub num_layers: usize,
    pub num_heads: usize,
    pub max_seq_len: usize,
    pub ff_dim: usize,
}

/// A product-quantisation codebook: for each sub-vector, `2^nbits` centroids of
/// `sub_dim` numbers. Entry `c` of sub-vector `m` starts at
/// `(m * 2^nbits + c) * sub_dim`.
#[derive(Debug, Clone, PartialEq)]
pub struct PqCodebook<T> {
    pub num_sub_vectors: usize,
    pub nbits: usize,
    pub sub_dim: usize,
    pub codebook: Vec<T>,
}

/// An expert's rows in product-quantised form: `num_sub_vectors` codes and one
/// scale for each row.
#[derive(Debug, Clone, PartialEq)]
pub struct PqExpertData<T> {
    pub codes: Vec<u8>,
    pub row_scales: Vec<T>,
    pub num_sub_vectors: usize,
}

/// A group of output rows of the source matrix, quantised, with the centroid that
/// routes inputs to it.
#[derive(Debug, Clone)]
pub struct MicroExpert<T> {
    /// The output rows of this expert.
    pub row_ids: Vec<u32>,
    /// Ternary codes, row by row. Not used when `pq` is there.
    pub ternary: Vec<i8>,
    /// The scale of each row. Not used when `pq` is there.
    pub row_scales: Vec<T>,
    /// The expert's direction in input space.
    pub centroid: Vec<T>,
    /// The mean activation that the bias was computed with.
    pub mean_input: Vec<T>,
    /// The product-quantised rows, where that scheme is used.
    pub pq: Option<PqExpertData<T>>,
}

/// A transmuted weight matrix `[out_dim, in_dim]`.
#[derive(Debug, Clone)]
pub struct SparseLayer<T> {
    pub out_dim: usize,
    pub in_dim: usize,
    /// The outlier rows.
    pub dense_core: Matrix<T>,
    /// The output row of each row of `dense_core`.
    pub core_row_ids: Vec<u32>,
    /// The experts, which cover the other rows.
    pub experts: Vec<MicroExpert<T>>,
    /// For each output row the expected contribution of its weights; zero for core
    /// rows.
    pub bias: Vec<T>,
    /// The mean activation that the bias was computed with.
    pub mean_input: Vec<T>,
    /// The codebook that product-quantised experts share.
    pub pq_codebook: Option<PqCodebook<T>>,
    /// For each output row -1 for a core row, else the expert that owns it. Empty in
    /// layers whose bias goes to every row.
    pub row_to_expert: Vec<i32>,
    /// The codebook that inputs are encoded against for `bias_table`.
    pub input_codebook: Option<PqCodebook<T>>,
    /// The bias of output row `i` for inputs with code `c`, at `c * out_dim + i`.
    pub bias_table: Option<Vec<T>>,
}

/// A whole transmuted model.
#[derive(Debug, Clone)]
pub struct TransmutedModel<T> {
    pub config: ConfigStub,
    /// The token embedding, kept dense.
    pub token_embed: Matrix<T>,
    /// Per layer the four weight matrices: see [`IDX_QKV`] and the others.
    pub layers: Vec<[SparseLayer<T>; 4]>,
    pub ln1_gain: Vec<Vec<T>>,
    pub ln2_gain: Vec<Vec<T>>,
    pub ln_f_gain: Vec<T>,
}

/// Index of the query, key and value projection in a layer's four matrices.
pub const IDX_QKV: usize = 0;

/// Index of the attention output projection.
pub const IDX_ATTN_OUT: usize = 1;

/// Index of the first feed-forward projection.
pub const IDX_FF_UP: usize = 2;

/// Index of the second feed-forward projection.
pub const IDX_FF_DOWN: usize = 3;

/// `2^nbits`, computed.
pub fn power_of_two(nbits: usize) -> (r: usize)
    requires
        pow2(nbits as nat) <= usize::MAX,
    ensures
        r == pow2(nbits as nat),
        r >= 1,
{
    let mut r: usize = 1;
    assert(pow2(0) == 1) by {
        vstd::arithmetic::power2::lemma2_to64();
    }
    for i in 0..nbits
        invariant
            r == pow2(i as nat),
            pow2(nbits as nat) <= usize::MAX,
    {
        proof {
            lemma_pow2_unfold((i + 1) as nat);
            if i + 1 < nbits {
                lemma_pow2_strictly_increases((i + 1) as nat, nbits as nat);
            }
        }
        r = r * 2;
    }
    proof {
        lemma_pow2_pos(nbits as nat);
    }
    r
}

impl<T> PqCodebook<T> {
    /// The number of entries per sub-vector.
    pub open spec fn entries(&self) -> nat {
        pow2(self.nbits as nat)
    }

    /// The number of entries per sub-vector.
    pub fn num_entries(&self) -> (n: usize)
        requires
            self.entries() <= usize::MAX,
        ensures
            n == self.entries(),
            n >= 1,
    {
        power_of_two(self.nbits)
    }

    /// Where entry `c` of sub-vector `m` starts.
    pub open spec fn entry_start(&self, m: int, c: int) -> int {
        (m * self.entries() + c) * self.sub_dim
    }

    /// Entry `c` of sub-vector `m`.
    pub open spec fn entry(&self, m: int, c: int) -> Seq<T> {
        self.codebook@.subrange(
            self.entry_start(m, c),
            self.entry_start(m, c) + self.sub_dim as int,
        )
    }

    /// Whether the codebook has room for every entry, and no address overflows.
    pub open spec fn wf(&self) -> bool {
        &&& self.entries() <= usize::MAX
        &&& self.codebook@.len() == self.num_sub_vectors * self.entries() * self.sub_dim
        &&& self.num_sub_vectors * self.sub_dim <= usize::MAX
        &&& self.num_sub_vectors * self.entries() <= usize::MAX
    }
}

/// Where the entries of a codebook lie.
pub proof fn lemma_entry_bounds<T>(cb: PqCodebook<T>, m: int, c: int)
    requires
        cb.wf(),
        0 <= m < cb.num_sub_vectors,
        0 <= c < cb.entries(),
    ensures
        0 <= m * cb.entries() + c < cb.num_sub_vectors * cb.entries(),
        0 <= cb.entry_start(m, c),
        cb.entry_start(m, c) + cb.sub_dim <= cb.codebook@.len(),
        0 <= m * cb.sub_dim,
        (m + 1) * cb.sub_dim == m * cb.sub_dim + cb.sub_dim,
        (m + 1) * cb.sub_dim <= cb.num_sub_vectors * cb.sub_dim,
{
    let e = cb.entries() as int;
    let s = cb.sub_dim as int;
    let n = cb.num_sub_vectors as int;
    crate::tensor::lemma_cell_index(n, e, m, c);
    crate::tensor::lemma_row_index(n, s, m);
    crate::tensor::lemma_row_index(n * e, s, m * e + c);
}

/// The number of output rows of the first `n` experts.
pub open spec fn expert_rows<T>(experts: Seq<MicroExpert<T>>, n: nat) -> nat
    decreases n,
{
    if n == 0 {
        0
    } else {
        expert_rows(experts, (n - 1) as nat) + experts[n - 1].row_ids@.len()
    }
}

impl<T> SparseLayer<T> {
    /// The number of output rows in the core and in the experts.
    pub open spec fn covered(&self) -> nat {
        self.core_row_ids@.len() + expert_rows(self.experts@, self.experts@.len())
    }

    /// The number of experts.
    pub fn num_experts(&self) -> (n: usize)
        ensures
            n == self.experts@.len(),
    {
        self.experts.len()
    }

    /// The number of output rows in the core and in the experts: `out_dim`, if the
    /// layer covers every row once.
    pub fn covered_rows(&self) -> (n: usize)
        requires
            self.covered() <= usize::MAX,
        ensures
            n == self.covered(),
    {
        let mut n: usize = self.core_row_ids.len();
        for k in 0..self.experts.len()
            invariant
                n == self.core_row_ids@.len() + expert_rows(self.experts@, k as nat),
                self.covered() <= usize::MAX,
        {
            proof {
                lemma_expert_rows_monotone(self.experts@, (k + 1) as nat, self.experts@.len());
            }
            n = n + self.experts[k].row_ids.len();
        }
        n
    }
}

/// The number of output rows of the first `n` experts, summed up as numbers.
pub open spec fn expert_rows_sum<T: Scalar>(experts: Seq<MicroExpert<T>>, n: nat) -> T
    decreases n,
{
    if n == 0 {
        T::spec_zero()
    } else {
        expert_rows_sum(experts, (n - 1) as nat).plus_spec(
            T::spec_count(experts[n - 1].row_ids@.len() as usize),
        )
    }
}

impl<T: Scalar> SparseLayer<T> {
    /// The share of the layer's weights that is active.
    pub open spec fn active_share(&self, avg_experts_on: T) -> T {
        let n = if self.experts@.len() == 0 {
            1
        } else {
            self.experts@.len()
        };
        if self.out_dim * self.in_dim == 0 {
            T::spec_zero()
        } else {
            T::spec_count((self.core_row_ids@.len() * self.in_dim) as usize).plus_spec(
                expert_rows_sum(self.experts@, self.experts@.len()).times_spec(
                    avg_experts_on.over_spec(T::spec_count(n as usize)),
                ).times_spec(T::spec_count(self.in_dim)),
            ).over_spec(T::spec_count((self.out_dim * self.in_dim) as usize))
        }
    }

    /// The share of the layer's weights that is active when so many experts are on: the
    /// core, and the rows of the experts in proportion.
    pub fn active_fraction(&self, avg_experts_on: T) -> (r: T)
        requires
            self.out_dim * self.in_dim <= usize::MAX,
            self.core_row_ids@.len() * self.in_dim <= usize::MAX,
        ensures
            r == self.active_share(avg_experts_on),
    {
        let total: usize = self.out_dim * self.in_dim;
        if total == 0 {
            return T::zero();
        }
        let mut rows = T::zero();
        for k in 0..self.experts.len()
            invariant
                rows == expert_rows_sum(self.experts@, k as nat),
        {
            rows = rows.plus(T::from_count(self.experts[k].row_ids.len()));
        }
        let n: usize = if self.experts.len() == 0 {
            1
        } else {
            self.experts.len()
        };
        let core = T::from_count(self.core_row_ids.len() * self.in_dim);
        let on = rows.times(avg_experts_on.over(T::from_count(n)));
        core.plus(on.times(T::from_count(self.in_dim))).over(T::from_count(total))
    }
}

proof fn lemma_expert_rows_monotone<T>(experts: Seq<MicroExpert<T>>, a: nat, b: nat)
    requires
        a <= b,
    ensures
        expert_rows(experts, a) <= expert_rows(experts, b),
    decreases b,
{
    if a < b {
        lemma_expert_rows_monotone(experts, a, (b - 1) as nat);
    }
}

} // verus!
