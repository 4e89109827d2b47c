//! Transmutation: turns a dense weight matrix into a sparse layer. The outlier rows
//! become the dense core; the other rows are clustered into micro-experts and
//! quantised; and the bias that stands in for pruned experts is computed in advance.

use vstd::prelude::*;
use vstd::arithmetic::power2::pow2;
use vstd::slice::slice_subrange;
use crate::cluster::{assigned_clusters, cluster, is_clustering, ClusterConfig, ClusterResult};
use crate::error::{NseError, NseResult};
use crate::kernel::{decoded, ids_within};
use crate::outlier::{
    ascending, extract, is_outlier_split, splits_rows, OutlierConfig, OutlierResult,
};
use crate::pq::{
    at_least_one, encode_pq, encoded, members_upto, row_seqs, rows_dim, rows_have_dim, train_pq,
    trained_entry,
};
use crate::quantize::{
    mean_magnitude, quantize_matrix, reconstruct_row, reconstructed, row_codes, row_scale,
};
use crate::scalar::{dot, dot_spec, Scalar};
use crate::sparse::{expert_rows, MicroExpert, PqCodebook, PqExpertData, SparseLayer};
use crate::sparse_linear::rows_owned;
use crate::tensor::{
    copy_all, copy_range, filled, lemma_cell_index, lemma_row_index, row_of, Matrix,
};

verus! {

/// How the rows of the experts are quantised.
#[derive(Debug, Clone)]
pub enum QuantSchemeConfig {
    /// Ternary codes and a scale for each row.
    Ternary,
    /// Product quantisation against a codebook that the experts of a layer share.
    Pq {
        /// The number of sub-vectors. Where it does not divide the row length, the
        /// next lower number that does is taken.
        num_sub_vectors: usize,
        /// Bits per code.
        nbits: usize,
        /// The highest number of k-means rounds.
        iters: usize,
        /// Chooses the start of k-means.
        seed: u64,
    },
}

impl Default for QuantSchemeConfig {
    fn default() -> (r: QuantSchemeConfig)
        ensures
            r == QuantSchemeConfig::Ternary,
    {
        QuantSchemeConfig::Ternary
    }
}

/// How the bias for pruned experts is computed.
#[derive(Debug, Clone)]
pub enum BiasMode {
    /// From the mean activation.
    Mean,
    /// From the mean activation, and also from a table that is looked up with the code
    /// of the input.
    Adaptive {
        /// Bits per code.
        nbits: usize,
        /// The highest number of k-means rounds.
        iters: usize,
        /// Chooses the start of k-means.
        seed: u64,
    },
}

impl Default for BiasMode {
    fn default() -> (r: BiasMode)
        ensures
            r == BiasMode::Mean,
    {
        BiasMode::Mean
    }
}

/// How to transmute.
#[derive(Debug, Clone)]
pub struct TransmuteConfig<T> {
    pub outlier: OutlierConfig<T>,
    pub cluster: ClusterConfig,
    pub quant: QuantSchemeConfig,
    pub bias_mode: BiasMode,
}

impl<T: Scalar> Default for TransmuteConfig<T> {
    fn default() -> (r: Self)
        ensures
            r.outlier.fraction == T::spec_count(1).over_spec(T::spec_count(20)),
            r.cluster.num_experts == 0,
            r.cluster.iters == 10,
            r.cluster.seed == 7,
            r.quant == QuantSchemeConfig::Ternary,
            r.bias_mode == BiasMode::Mean,
    {
        TransmuteConfig {
            outlier: OutlierConfig::default(),
            cluster: ClusterConfig::default(),
            quant: QuantSchemeConfig::default(),
            bias_mode: BiasMode::default(),
        }
    }
}

impl<T: Scalar> TransmuteConfig<T> {
    /// For small models: one row in ten in the core, ternary experts, mean bias.
    pub fn poc() -> (r: Self)
        ensures
            r.outlier.fraction == T::spec_count(1).over_spec(T::spec_count(10)),
            r.cluster == (ClusterConfig { num_experts: 0, iters: 10, seed: 7 }),
            r.quant == QuantSchemeConfig::Ternary,
            r.bias_mode == BiasMode::Mean,
    {
        TransmuteConfig {
            outlier: OutlierConfig { fraction: T::from_count(1).over(T::from_count(10)) },
            cluster: ClusterConfig { num_experts: 0, iters: 10, seed: 7 },
            quant: QuantSchemeConfig::Ternary,
            bias_mode: BiasMode::Mean,
        }
    }

    /// As [`TransmuteConfig::poc`], with product quantisation in four sub-vectors of
    /// eight bits.
    pub fn pq() -> (r: Self)
        ensures
            r.outlier.fraction == T::spec_count(1).over_spec(T::spec_count(10)),
            r.cluster == (ClusterConfig { num_experts: 0, iters: 10, seed: 7 }),
            r.quant == (QuantSchemeConfig::Pq { num_sub_vectors: 4, nbits: 8, iters: 20, seed: 7 }),
            r.bias_mode == BiasMode::Mean,
    {
        TransmuteConfig {
            outlier: OutlierConfig { fraction: T::from_count(1).over(T::from_count(10)) },
            cluster: ClusterConfig { num_experts: 0, iters: 10, seed: 7 },
            quant: QuantSchemeConfig::Pq { num_sub_vectors: 4, nbits: 8, iters: 20, seed: 7 },
            bias_mode: BiasMode::Mean,
        }
    }

    /// As [`TransmuteConfig::pq`], with a bias table over eight-bit codes of the input.
    pub fn adaptive() -> (r: Self)
        ensures
            r.outlier.fraction == T::spec_count(1).over_spec(T::spec_count(10)),
            r.cluster == (ClusterConfig { num_experts: 0, iters: 10, seed: 7 }),
            r.quant == (QuantSchemeConfig::Pq { num_sub_vectors: 4, nbits: 8, iters: 20, seed: 7 }),
            r.bias_mode == (BiasMode::Adaptive { nbits: 8, iters: 20, seed: 7 }),
    {
        TransmuteConfig {
            outlier: OutlierConfig { fraction: T::from_count(1).over(T::from_count(10)) },
            cluster: ClusterConfig { num_experts: 0, iters: 10, seed: 7 },
            quant: QuantSchemeConfig::Pq { num_sub_vectors: 4, nbits: 8, iters: 20, seed: 7 },
            bias_mode: BiasMode::Adaptive { nbits: 8, iters: 20, seed: 7 },
        }
    }
}

/// The output rows of a cluster.
pub open spec fn cluster_row_ids(members: Seq<usize>, residual_ids: Seq<u32>) -> Seq<u32> {
    members.map_values(|r: usize| residual_ids[r as int])
}

/// What the experts of both schemes share: expert `k` has the output rows of cluster
/// `k`, its centroid, and the mean input.
pub open spec fn expert_of_cluster<T>(
    e: MicroExpert<T>,
    k: int,
    cl: ClusterResult<T>,
    residual_ids: Seq<u32>,
    mean: Seq<T>,
) -> bool {
    &&& e.row_ids@ == cluster_row_ids(cl.members@[k]@, residual_ids)
    &&& e.centroid@ == cl.centroids.row_seq(k)
    &&& e.mean_input@ == mean
}

/// Whether a ternary expert holds the codes and scales of its rows in the residual.
pub open spec fn ternary_rows<T: Scalar>(
    e: MicroExpert<T>,
    members: Seq<usize>,
    residual: Matrix<T>,
) -> bool {
    &&& e.pq is None
    &&& e.ternary@.len() == members.len() * residual.cols
    &&& e.row_scales@.len() == members.len()
    &&& forall|i: int|
        0 <= i < members.len() ==> #[trigger] row_of(e.ternary@, residual.cols as int, i)
            == row_codes(residual.row_seq(members[i] as int))
    &&& forall|i: int|
        0 <= i < members.len() ==> #[trigger] e.row_scales@[i] == row_scale(
            residual.row_seq(members[i] as int),
        )
}

/// The scale that rows are divided by before product quantisation: the row's scale, but
/// at least a hundred-millionth.
pub open spec fn safe_scale<T: Scalar>(scale: T) -> T {
    let floor = T::spec_count(1).over_spec(T::spec_count(100000000));
    if floor.at_most_spec(scale) {
        scale
    } else {
        floor
    }
}

/// A row divided by its scale.
pub open spec fn normalized<T: Scalar>(row: Seq<T>) -> Seq<T> {
    row.map_values(|v: T| v.over_spec(safe_scale(row_scale(row))))
}

/// The rows of a matrix, each divided by its scale.
pub open spec fn normalized_rows<T: Scalar>(m: Matrix<T>) -> Seq<Seq<T>> {
    Seq::new(m.rows as nat, |r: int| normalized(m.row_seq(r)))
}

/// Whether a product-quantised expert holds the codes and scales of its rows in the
/// residual.
pub open spec fn pq_rows<T: Scalar>(
    e: MicroExpert<T>,
    members: Seq<usize>,
    residual: Matrix<T>,
    cb: PqCodebook<T>,
) -> bool {
    &&& e.ternary@.len() == 0
    &&& e.row_scales@.len() == 0
    &&& e.pq matches Some(pq) && {
        &&& pq.num_sub_vectors == cb.num_sub_vectors
        &&& pq.codes@.len() == members.len() * cb.num_sub_vectors
        &&& pq.row_scales@.len() == members.len()
        &&& forall|i: int|
            0 <= i < members.len() ==> #[trigger] row_of(pq.codes@, cb.num_sub_vectors as int, i)
                == encoded(normalized(residual.row_seq(members[i] as int)), cb)
        &&& forall|i: int|
            0 <= i < members.len() ==> #[trigger] pq.row_scales@[i] == row_scale(
                residual.row_seq(members[i] as int),
            )
    }
}

/// The largest number up to `request` that divides `in_dim`, or one.
pub open spec fn is_sub_vector_count(m: nat, in_dim: nat, request: nat) -> bool {
    &&& m >= 1
    &&& in_dim % m == 0
    &&& request >= 1 ==> m <= request
    &&& request == 0 ==> m == 1
    &&& forall|d: int| m < d <= request ==> #[trigger] (in_dim as int % d) != 0
}

/// The number of sub-vectors to use.
fn sub_vector_count(in_dim: usize, request: usize) -> (m: usize)
    ensures
        is_sub_vector_count(m as nat, in_dim as nat, request as nat),
{
    let mut m: usize = request;
    while m > 1
        invariant
            m <= request,
            forall|d: int| m < d <= request ==> #[trigger] (in_dim as int % d) != 0,
        decreases m,
    {
        if in_dim % m == 0 {
            return m;
        }
        m = m - 1;
    }
    assert(in_dim as int % 1 == 0);
    1
}

/// The row ids of a cluster.
fn collect_row_ids(members: &Vec<usize>, residual_ids: &[u32]) -> (r: Vec<u32>)
    requires
        forall|i: int| 0 <= i < members@.len() ==> (#[trigger] members@[i]) < residual_ids@.len(),
    ensures
        r@ == cluster_row_ids(members@, residual_ids@),
{
    let ghost goal = cluster_row_ids(members@, residual_ids@);
    let mut out: Vec<u32> = Vec::with_capacity(members.len());
    for i in 0..members.len()
        invariant
            forall|j: int|
                0 <= j < members@.len() ==> (#[trigger] members@[j]) < residual_ids@.len(),
            goal == cluster_row_ids(members@, residual_ids@),
            out@ == goal.take(i as int),
    {
        assert(members@[i as int] < residual_ids@.len());
        out.push(residual_ids[members[i]]);
        assert(out@ =~= goal.take(i + 1));
    }
    assert(out@ =~= goal);
    out
}

/// The matrix of the member rows.
fn member_block<T: Scalar>(residual: &Matrix<T>, members: &Vec<usize>) -> (m: Matrix<T>)
    requires
        residual.wf(),
        members@.len() * residual.cols <= usize::MAX,
        forall|i: int| 0 <= i < members@.len() ==> (#[trigger] members@[i]) < residual.rows,
    ensures
        m.wf(),
        m.rows == members@.len(),
        m.cols == residual.cols,
        forall|i: int|
            0 <= i < members@.len() ==> #[trigger] m.row_seq(i) == residual.row_seq(
                members@[i] as int,
            ),
{
    let in_dim: usize = residual.cols;
    let mut data: Vec<T> = Vec::with_capacity(members.len() * in_dim);
    assert(0 * in_dim == 0) by (nonlinear_arith);
    for i in 0..members.len()
        invariant
            residual.wf(),
            in_dim == residual.cols,
            forall|j: int| 0 <= j < members@.len() ==> (#[trigger] members@[j]) < residual.rows,
            data@.len() == i * in_dim,
            forall|j: int|
                0 <= j < i ==> #[trigger] row_of(data@, in_dim as int, j) == residual.row_seq(
                    members@[j] as int,
                ),
    {
        let r: usize = members[i];
        proof {
            assert(members@[i as int] < residual.rows);
            lemma_row_index(residual.rows as int, in_dim as int, r as int);
            assert(residual.data.len() == residual.data@.len());
        }
        let ghost before = data@;
        let mut row = copy_range(&residual.data, r * in_dim, (r + 1) * in_dim);
        let ghost added = row@;
        data.append(&mut row);
        assert((i + 1) * in_dim == i * in_dim + in_dim) by (nonlinear_arith);
        assert forall|j: int| 0 <= j < i + 1 implies #[trigger] row_of(data@, in_dim as int, j)
            == residual.row_seq(members@[j] as int) by {
            if j < i {
                lemma_row_index(i as int, in_dim as int, j);
                assert(row_of(data@, in_dim as int, j) =~= row_of(before, in_dim as int, j));
            } else {
                assert(row_of(data@, in_dim as int, j) =~= added);
            }
        }
    }
    let m = Matrix { rows: members.len(), cols: in_dim, data };
    assert forall|i: int| 0 <= i < members@.len() implies #[trigger] m.row_seq(i)
        == residual.row_seq(members@[i] as int) by {
        assert(row_of(data@, in_dim as int, i) == residual.row_seq(members@[i] as int));
    }
    m
}

/// Whether the clusters are over the rows of the residual.
pub open spec fn clusters_fit<T>(
    cl: ClusterResult<T>,
    residual: Matrix<T>,
    residual_ids: Seq<u32>,
) -> bool {
    &&& residual.wf()
    &&& residual_ids.len() == residual.rows
    &&& cl.centroids.wf()
    &&& cl.centroids.cols == residual.cols
    &&& cl.members@.len() == cl.centroids.rows
    &&& forall|k: int, i: int|
        0 <= k < cl.members@.len() && 0 <= i < cl.members@[k]@.len() ==> (
        #[trigger] cl.members@[k]@[i]) < residual.rows
    &&& forall|k: int|
        0 <= k < cl.members@.len() ==> (#[trigger] cl.members@[k])@.len() <= residual.rows
}

proof fn lemma_members_fit<T>(cl: ClusterResult<T>, residual: Matrix<T>, k: int)
    requires
        residual.wf(),
        0 <= k < cl.members@.len(),
        cl.members@[k]@.len() <= residual.rows,
    ensures
        cl.members@[k]@.len() * residual.cols <= residual.rows * residual.cols,
        residual.rows * residual.cols <= usize::MAX,
{
    assert(cl.members@[k]@.len() * residual.cols <= residual.rows * residual.cols)
        by (nonlinear_arith)
        requires
            cl.members@[k]@.len() <= residual.rows,
            residual.cols >= 0,
    ;
    assert(residual.data.len() == residual.data@.len());
}

/// The experts of a layer, with ternary codes.
fn build_ternary_experts<T: Scalar>(
    cl: &ClusterResult<T>,
    residual: &Matrix<T>,
    residual_ids: &[u32],
    mean: &[T],
) -> (r: Vec<MicroExpert<T>>)
    requires
        clusters_fit(*cl, *residual, residual_ids@),
    ensures
        r@.len() == cl.members@.len(),
        forall|k: int|
            0 <= k < r@.len() ==> expert_of_cluster(
                #[trigger] r@[k],
                k,
                *cl,
                residual_ids@,
                mean@,
            ) && ternary_rows(r@[k], cl.members@[k]@, *residual),
{
    let in_dim: usize = residual.cols;
    let mut experts: Vec<MicroExpert<T>> = Vec::with_capacity(cl.members.len());
    for k in 0..cl.members.len()
        invariant
            in_dim == residual.cols,
            clusters_fit(*cl, *residual, residual_ids@),
            experts@.len() == k,
            forall|j: int|
                0 <= j < k ==> expert_of_cluster(
                    #[trigger] experts@[j],
                    j,
                    *cl,
                    residual_ids@,
                    mean@,
                ) && ternary_rows(experts@[j], cl.members@[j]@, *residual),
    {
        let members = &cl.members[k];
        proof {
            assert(cl.members@[k as int]@.len() <= residual.rows);
            lemma_members_fit(*cl, *residual, k as int);
            lemma_row_index(cl.centroids.rows as int, in_dim as int, k as int);
            assert(cl.centroids.data.len() == cl.centroids.data@.len());
            assert forall|i: int| 0 <= i < members@.len() implies (#[trigger] members@[i])
                < residual.rows by {
                assert(cl.members@[k as int]@[i] < residual.rows);
            }
        }
        let row_ids = collect_row_ids(members, residual_ids);
        let block = member_block(residual, members);
        let (ternary, row_scales) = quantize_matrix(&block);
        let centroid = copy_range(&cl.centroids.data, k * in_dim, (k + 1) * in_dim);
        let e = MicroExpert {
            row_ids,
            ternary,
            row_scales,
            centroid,
            mean_input: copy_all(mean),
            pq: None,
        };
        proof {
            assert forall|i: int| 0 <= i < members@.len() implies #[trigger] row_of(
                e.ternary@,
                in_dim as int,
                i,
            ) == row_codes(residual.row_seq(members@[i] as int)) by {
                assert(row_of(ternary@, block.cols as int, i) == row_codes(block.row_seq(i)));
            }
            assert forall|i: int| 0 <= i < members@.len() implies #[trigger] e.row_scales@[i]
                == row_scale(residual.row_seq(members@[i] as int)) by {
                assert(row_scales@[i] == row_scale(block.row_seq(i)));
            }
            assert(ternary_rows(e, cl.members@[k as int]@, *residual));
        }
        experts.push(e);
    }
    experts
}

/// A row divided by its scale, and the scale.
fn normalize_row<T: Scalar>(row: &[T]) -> (r: (Vec<T>, T))
    ensures
        r.0@ == normalized(row@),
        r.1 == row_scale(row@),
{
    let scale = mean_magnitude(row);
    let floor = T::from_count(1).over(T::from_count(100000000));
    let s = if floor.at_most(scale) {
        scale
    } else {
        floor
    };
    let ghost goal = normalized(row@);
    let mut out: Vec<T> = Vec::with_capacity(row.len());
    for i in 0..row.len()
        invariant
            s == safe_scale(row_scale(row@)),
            goal == normalized(row@),
            out@ == goal.take(i as int),
    {
        out.push(row[i].over(s));
        assert(out@ =~= goal.take(i + 1));
    }
    assert(out@ =~= goal);
    (out, scale)
}

/// Whether the codebook is the one that training on the normalised rows of the residual
/// gives.
pub open spec fn trained_on<T: Scalar>(
    cb: PqCodebook<T>,
    rows: Seq<Seq<T>>,
    nbits: usize,
    iters: nat,
    seed: u64,
) -> bool {
    &&& cb.wf()
    &&& cb.nbits == nbits
    &&& cb.num_sub_vectors * cb.sub_dim == rows_dim(rows)
    &&& forall|m: int, c: int|
        0 <= m < cb.num_sub_vectors && 0 <= c < cb.entries() ==> #[trigger] cb.entry(m, c)
            == trained_entry(rows, cb.sub_dim as nat, cb.entries(), iters, seed, m, c)
}

/// The experts of a layer, product-quantised, and the codebook that they share.
fn build_pq_experts<T: Scalar>(
    cl: &ClusterResult<T>,
    residual: &Matrix<T>,
    residual_ids: &[u32],
    mean: &[T],
    num_sub_vectors_req: usize,
    nbits: usize,
    iters: usize,
    seed: u64,
) -> (r: NseResult<(Vec<MicroExpert<T>>, PqCodebook<T>)>)
    requires
        clusters_fit(*cl, *residual, residual_ids@),
        pow2(nbits as nat) <= usize::MAX,
        residual.cols * pow2(nbits as nat) <= usize::MAX,
        residual.cols == 0 ==> at_least_one(num_sub_vectors_req as nat) * pow2(nbits as nat)
            <= usize::MAX,
    ensures
        residual.rows == 0 ==> (r matches Err(NseError::Other(m)) && m@
            == "PQ requires at least one residual row to train the codebook"@),
        residual.rows > 0 ==> (r matches Ok((experts, cb)) && {
            &&& is_sub_vector_count(
                cb.num_sub_vectors as nat,
                residual.cols as nat,
                num_sub_vectors_req as nat,
            )
            &&& trained_on(cb, normalized_rows(*residual), nbits, iters as nat, seed)
            &&& cb.num_sub_vectors * cb.sub_dim == residual.cols
            &&& experts@.len() == cl.members@.len()
            &&& forall|k: int|
                0 <= k < experts@.len() ==> expert_of_cluster(
                    #[trigger] experts@[k],
                    k,
                    *cl,
                    residual_ids@,
                    mean@,
                ) && pq_rows(experts@[k], cl.members@[k]@, *residual, cb)
        }),
{
    let n: usize = residual.rows;
    if n == 0 {
        return Err(
            NseError::Other(
                String::from_str("PQ requires at least one residual row to train the codebook"),
            ),
        );
    }
    let in_dim: usize = residual.cols;
    let m: usize = sub_vector_count(in_dim, num_sub_vectors_req);
    let ghost rows = normalized_rows(*residual);
    let mut scales: Vec<T> = Vec::with_capacity(n);
    let mut norms: Vec<Vec<T>> = Vec::with_capacity(n);
    for r in 0..n
        invariant
            residual.wf(),
            n == residual.rows,
            in_dim == residual.cols,
            rows == normalized_rows(*residual),
            scales@.len() == r,
            forall|i: int| 0 <= i < r ==> #[trigger] scales@[i] == row_scale(residual.row_seq(i)),
            row_seqs(norms@) == rows.take(r as int),
    {
        proof {
            lemma_row_index(n as int, in_dim as int, r as int);
            assert(residual.data.len() == residual.data@.len());
        }
        let ghost before = norms@;
        let row = slice_subrange(residual.data.as_slice(), r * in_dim, (r + 1) * in_dim);
        let (nr, scale) = normalize_row(row);
        scales.push(scale);
        norms.push(nr);
        assert(row_seqs(norms@) =~= row_seqs(before).push(nr@));
        assert(row_seqs(norms@) =~= rows.take(r + 1));
    }
    assert(row_seqs(norms@) =~= rows);
    assert(norms@.len() == row_seqs(norms@).len());
    proof {
        assert forall|i: int| 0 <= i < rows.len() implies (#[trigger] rows[i]).len() == in_dim by {
            lemma_row_index(n as int, in_dim as int, i);
        }
        assert(rows[0].len() == in_dim);
        let e = pow2(nbits as nat);
        let s = in_dim as nat / m as nat;
        assert(m * s == in_dim) by {
            vstd::arithmetic::div_mod::lemma_fundamental_div_mod(in_dim as int, m as int);
        }
        assert(m * e * s == (m * s) * e) by (nonlinear_arith);
        let top = if in_dim == 0 {
            at_least_one(num_sub_vectors_req as nat) as int
        } else {
            in_dim as int
        };
        assert(m <= top) by (nonlinear_arith)
            requires
                m * s == in_dim,
                in_dim == 0 ==> m <= top,
                in_dim > 0 ==> top == in_dim,
                in_dim >= 0,
                s >= 0,
                m >= 1,
        ;
        assert(m * e <= top * e) by (nonlinear_arith)
            requires
                m <= top,
                0 <= e,
        ;
    }
    let codebook = train_pq(&norms, m, nbits, iters, seed);
    let mut experts: Vec<MicroExpert<T>> = Vec::with_capacity(cl.members.len());
    for k in 0..cl.members.len()
        invariant
            n == residual.rows,
            in_dim == residual.cols,
            clusters_fit(*cl, *residual, residual_ids@),
            codebook.wf(),
            m == codebook.num_sub_vectors,
            m * codebook.sub_dim == in_dim,
            rows == normalized_rows(*residual),
            row_seqs(norms@) == rows,
            norms@.len() == n,
            forall|i: int| 0 <= i < rows.len() ==> (#[trigger] rows[i]).len() == in_dim,
            scales@.len() == n,
            forall|i: int| 0 <= i < n ==> #[trigger] scales@[i] == row_scale(residual.row_seq(i)),
            experts@.len() == k,
            forall|j: int|
                0 <= j < k ==> expert_of_cluster(
                    #[trigger] experts@[j],
                    j,
                    *cl,
                    residual_ids@,
                    mean@,
                ) && pq_rows(experts@[j], cl.members@[j]@, *residual, codebook),
    {
        let members = &cl.members[k];
        proof {
            assert(cl.members@[k as int]@.len() <= residual.rows);
            lemma_row_index(cl.centroids.rows as int, in_dim as int, k as int);
            assert(cl.centroids.data.len() == cl.centroids.data@.len());
            assert forall|i: int| 0 <= i < members@.len() implies (#[trigger] members@[i])
                < residual.rows by {
                assert(cl.members@[k as int]@[i] < residual.rows);
            }
        }
        let row_ids = collect_row_ids(members, residual_ids);
        let mut codes: Vec<u8> = Vec::new();
        let mut row_scales: Vec<T> = Vec::with_capacity(members.len());
        assert(0 * m == 0) by (nonlinear_arith);
        for i in 0..members.len()
            invariant
                n == residual.rows,
                in_dim == residual.cols,
                codebook.wf(),
                m == codebook.num_sub_vectors,
                m * codebook.sub_dim == in_dim,
                rows == normalized_rows(*residual),
                row_seqs(norms@) == rows,
                norms@.len() == n,
                forall|j: int| 0 <= j < rows.len() ==> (#[trigger] rows[j]).len() == in_dim,
                scales@.len() == n,
                forall|j: int| 0 <= j < n ==> #[trigger] scales@[j] == row_scale(residual.row_seq(j)),
                forall|j: int| 0 <= j < members@.len() ==> (#[trigger] members@[j]) < residual.rows,
                codes@.len() == i * m,
                row_scales@.len() == i,
                forall|j: int|
                    0 <= j < i ==> #[trigger] row_of(codes@, m as int, j) == encoded(
                        normalized(residual.row_seq(members@[j] as int)),
                        codebook,
                    ),
                forall|j: int|
                    0 <= j < i ==> #[trigger] row_scales@[j] == row_scale(
                        residual.row_seq(members@[j] as int),
                    ),
        {
            let r: usize = members[i];
            assert(members@[i as int] < residual.rows);
            assert(row_seqs(norms@)[r as int] == norms@[r as int]@);
            assert(rows[r as int].len() == in_dim);
            row_scales.push(scales[r]);
            let ghost before = codes@;
            let mut row_codes = encode_pq(&norms[r], &codebook);
            let ghost added = row_codes@;
            codes.append(&mut row_codes);
            assert((i + 1) * m == i * m + m) by (nonlinear_arith);
            assert forall|j: int| 0 <= j < i + 1 implies #[trigger] row_of(codes@, m as int, j)
                == encoded(normalized(residual.row_seq(members@[j] as int)), codebook) by {
                if j < i {
                    lemma_row_index(i as int, m as int, j);
                    assert(row_of(codes@, m as int, j) =~= row_of(before, m as int, j));
                } else {
                    assert(row_of(codes@, m as int, j) =~= added);
                }
            }
        }
        let centroid = copy_range(&cl.centroids.data, k * in_dim, (k + 1) * in_dim);
        let e = MicroExpert {
            row_ids,
            ternary: Vec::new(),
            row_scales: Vec::new(),
            centroid,
            mean_input: copy_all(mean),
            pq: Some(PqExpertData { codes, row_scales, num_sub_vectors: m }),
        };
        assert(pq_rows(e, cl.members@[k as int]@, *residual, codebook));
        experts.push(e);
    }
    Ok((experts, codebook))
}

/// Row `j` of an expert as the kernels compute with it.
pub open spec fn quantized_row<T: Scalar>(
    e: MicroExpert<T>,
    codebook: Option<PqCodebook<T>>,
    in_dim: nat,
    j: int,
) -> Seq<T> {
    match (e.pq, codebook) {
        (Some(pq), Some(cb)) => decoded(
            row_of(pq.codes@, pq.num_sub_vectors as int, j),
            cb,
        ).map_values(|v: T| pq.row_scales@[j].times_spec(v)),
        _ => reconstructed(row_of(e.ternary@, in_dim as int, j), e.row_scales@[j]),
    }
}

/// Whether an expert has the codes and scales that its rows need.
pub open spec fn expert_complete<T>(
    e: MicroExpert<T>,
    codebook: Option<PqCodebook<T>>,
    in_dim: nat,
) -> bool {
    match (e.pq, codebook) {
        (Some(pq), Some(cb)) => {
            &&& cb.wf()
            &&& pq.num_sub_vectors == cb.num_sub_vectors
            &&& cb.num_sub_vectors * cb.sub_dim == in_dim
            &&& pq.row_scales@.len() == e.row_ids@.len()
            &&& pq.codes@.len() == e.row_ids@.len() * pq.num_sub_vectors
        },
        _ => {
            &&& e.row_scales@.len() == e.row_ids@.len()
            &&& e.ternary@.len() == e.row_ids@.len() * in_dim
        },
    }
}

/// Whether each output row is listed by at most one expert, and there once.
pub open spec fn rows_disjoint<T>(experts: Seq<MicroExpert<T>>, out_dim: nat) -> bool {
    &&& forall|k: int|
        0 <= k < experts.len() ==> ids_within((#[trigger] experts[k]).row_ids@, out_dim)
            && experts[k].row_ids@.no_duplicates()
    &&& forall|k: int, i: int, l: int, j: int|
        0 <= k < l < experts.len() && 0 <= i < experts[k].row_ids@.len() && 0 <= j
            < experts[l].row_ids@.len() ==> #[trigger] experts[k].row_ids@[i]
            != #[trigger] experts[l].row_ids@[j]
}

/// Writes `row` into row `r` of numbers that lie in rows of `cols`.
pub(crate) fn write_row<T: Scalar>(data: &mut Vec<T>, cols: usize, r: usize, row: &Vec<T>, Ghost(rows): Ghost<int>)
    requires
        old(data)@.len() == rows * cols,
        r < rows,
        row@.len() == cols,
    ensures
        final(data)@.len() == rows * cols,
        row_of(final(data)@, cols as int, r as int) == row@,
        forall|q: int|
            0 <= q < rows && q != r ==> #[trigger] row_of(final(data)@, cols as int, q) == row_of(
                old(data)@,
                cols as int,
                q,
            ),
{
    proof {
        lemma_row_index(rows, cols as int, r as int);
        assert(data.len() == data@.len());
    }
    let base: usize = r * cols;
    let ghost d0 = data@;
    for j in 0..cols
        invariant
            row@.len() == cols,
            base + cols <= data@.len(),
            data@.len() == d0.len(),
            forall|q: int| base <= q < base + j ==> data@[q] == row@[q - base],
            forall|q: int| 0 <= q < d0.len() && !(base <= q < base + j) ==> data@[q] == d0[q],
    {
        assert(data.len() == data@.len());
        data[base + j] = row[j];
    }
    assert(row_of(data@, cols as int, r as int) =~= row@);
    assert forall|q: int| 0 <= q < rows && q != r implies #[trigger] row_of(data@, cols as int, q)
        == row_of(d0, cols as int, q) by {
        lemma_row_index(rows, cols as int, q);
        if q < r {
            assert((q + 1) * cols <= r * cols) by (nonlinear_arith)
                requires
                    q + 1 <= r,
                    cols >= 0,
            ;
        } else {
            assert((r + 1) * cols <= q * cols) by (nonlinear_arith)
                requires
                    r + 1 <= q,
                    cols >= 0,
            ;
        }
        assert(row_of(data@, cols as int, q) =~= row_of(d0, cols as int, q));
    }
}

/// Whether an expert lists row `q`.
pub open spec fn row_listed<T>(experts: Seq<MicroExpert<T>>, q: int) -> bool {
    exists|k: int, j: int|
        0 <= k < experts.len() && 0 <= j < experts[k].row_ids@.len()
            && #[trigger] experts[k].row_ids@[j] == q
}

/// The weights of all experts as the kernels compute with them, in rows of `in_dim`.
/// Rows that no expert has are zero.
pub fn reconstruct_quantized_rows<T: Scalar>(
    experts: &Vec<MicroExpert<T>>,
    pq_codebook: &Option<PqCodebook<T>>,
    out_dim: usize,
    in_dim: usize,
) -> (w: Vec<T>)
    requires
        out_dim * in_dim <= usize::MAX,
        rows_disjoint(experts@, out_dim as nat),
        forall|k: int|
            0 <= k < experts@.len() ==> expert_complete(
                #[trigger] experts@[k],
                *pq_codebook,
                in_dim as nat,
            ),
    ensures
        w@.len() == out_dim * in_dim,
        forall|k: int, j: int|
            0 <= k < experts@.len() && 0 <= j < experts@[k].row_ids@.len() ==> row_of(
                w@,
                in_dim as int,
                (#[trigger] experts@[k].row_ids@[j]) as int,
            ) == quantized_row(experts@[k], *pq_codebook, in_dim as nat, j),
        forall|q: int|
            0 <= q < out_dim && !row_listed(experts@, q) ==> #[trigger] row_of(
                w@,
                in_dim as int,
                q,
            ) == Seq::new(in_dim as nat, |i: int| T::spec_zero()),
{
    let mut w: Vec<T> = filled(out_dim * in_dim, T::zero());
    let ghost zeros = Seq::new(in_dim as nat, |i: int| T::spec_zero());
    assert forall|q: int| 0 <= q < out_dim implies #[trigger] row_of(w@, in_dim as int, q)
        == zeros by {
        lemma_row_index(out_dim as int, in_dim as int, q);
        assert(row_of(w@, in_dim as int, q) =~= zeros);
    }
    for k in 0..experts.len()
        invariant
            out_dim * in_dim <= usize::MAX,
            rows_disjoint(experts@, out_dim as nat),
            forall|l: int|
                0 <= l < experts@.len() ==> expert_complete(
                    #[trigger] experts@[l],
                    *pq_codebook,
                    in_dim as nat,
                ),
            w@.len() == out_dim * in_dim,
            forall|l: int, j: int|
                0 <= l < k && 0 <= j < experts@[l].row_ids@.len() ==> row_of(
                    w@,
                    in_dim as int,
                    (#[trigger] experts@[l].row_ids@[j]) as int,
                ) == quantized_row(experts@[l], *pq_codebook, in_dim as nat, j),
            forall|q: int|
                0 <= q < out_dim && !row_listed(experts@, q) ==> #[trigger] row_of(
                    w@,
                    in_dim as int,
                    q,
                ) == zeros,
    {
        let e = &experts[k];
        assert(ids_within(experts@[k as int].row_ids@, out_dim as nat));
        assert(expert_complete(experts@[k as int], *pq_codebook, in_dim as nat));
        for j in 0..e.row_ids.len()
            invariant
                *e == experts@[k as int],
                k < experts@.len(),
                rows_disjoint(experts@, out_dim as nat),
                ids_within(e.row_ids@, out_dim as nat),
                expert_complete(*e, *pq_codebook, in_dim as nat),
                w@.len() == out_dim * in_dim,
                forall|l: int, i: int|
                    0 <= l < k && 0 <= i < experts@[l].row_ids@.len() ==> row_of(
                        w@,
                        in_dim as int,
                        (#[trigger] experts@[l].row_ids@[i]) as int,
                    ) == quantized_row(experts@[l], *pq_codebook, in_dim as nat, i),
                forall|i: int|
                    0 <= i < j ==> row_of(w@, in_dim as int, (#[trigger] e.row_ids@[i]) as int)
                        == quantized_row(*e, *pq_codebook, in_dim as nat, i),
                forall|q: int|
                    0 <= q < out_dim && !row_listed(experts@, q) ==> #[trigger] row_of(
                        w@,
                        in_dim as int,
                        q,
                    ) == zeros,
        {
            let r: usize = e.row_ids[j] as usize;
            assert(e.row_ids@[j as int] < out_dim);
            let row = match (&e.pq, pq_codebook) {
                (Some(pq), Some(cb)) => {
                    let m: usize = pq.num_sub_vectors;
                    proof {
                        lemma_row_index(e.row_ids@.len() as int, m as int, j as int);
                        assert(pq.codes.len() == pq.codes@.len());
                    }
                    let codes = slice_subrange(pq.codes.as_slice(), j * m, (j + 1) * m);
                    crate::pq::reconstruct_pq_row(codes, cb, pq.row_scales[j])
                },
                _ => {
                    proof {
                        lemma_row_index(e.row_ids@.len() as int, in_dim as int, j as int);
                        assert(e.ternary.len() == e.ternary@.len());
                    }
                    let codes = slice_subrange(e.ternary.as_slice(), j * in_dim, (j + 1) * in_dim);
                    reconstruct_row(codes, e.row_scales[j])
                },
            };
            let ghost before = w@;
            assert(row@ == quantized_row(*e, *pq_codebook, in_dim as nat, j as int));
            write_row(&mut w, in_dim, r, &row, Ghost(out_dim as int));
            proof {
                assert(experts@[k as int].row_ids@[j as int] == r);
                assert(row_listed(experts@, r as int));
                assert forall|q: int|
                    0 <= q < out_dim && !row_listed(experts@, q) implies #[trigger] row_of(
                    w@,
                    in_dim as int,
                    q,
                ) == zeros by {
                    assert(row_of(before, in_dim as int, q) == zeros);
                }
                assert forall|l: int, i: int|
                    0 <= l < k && 0 <= i < experts@[l].row_ids@.len() implies row_of(
                    w@,
                    in_dim as int,
                    (#[trigger] experts@[l].row_ids@[i]) as int,
                ) == quantized_row(experts@[l], *pq_codebook, in_dim as nat, i) by {
                    assert(ids_within(experts@[l].row_ids@, out_dim as nat));
                    let q = experts@[l].row_ids@[i];
                    assert(experts@[l].row_ids@[i] != experts@[k as int].row_ids@[j as int]);
                    assert(row_of(before, in_dim as int, q as int) == quantized_row(
                        experts@[l],
                        *pq_codebook,
                        in_dim as nat,
                        i,
                    ));
                }
                assert forall|i: int| 0 <= i < j + 1 implies row_of(
                    w@,
                    in_dim as int,
                    (#[trigger] e.row_ids@[i]) as int,
                ) == quantized_row(*e, *pq_codebook, in_dim as nat, i) by {
                    if i < j {
                        assert(experts@[k as int].row_ids@.no_duplicates());
                        assert(e.row_ids@[i] != e.row_ids@[j as int]);
                        assert(row_of(before, in_dim as int, e.row_ids@[i] as int)
                            == quantized_row(*e, *pq_codebook, in_dim as nat, i));
                    }
                }
            }
        }
    }
    w
}

/// For each output row the expert that lists it, or -1.
fn map_rows<T: Scalar>(experts: &Vec<MicroExpert<T>>, out_dim: usize) -> (r: Vec<i32>)
    requires
        rows_disjoint(experts@, out_dim as nat),
        experts@.len() <= i32::MAX,
    ensures
        r@.len() == out_dim,
        forall|k: int, i: int|
            0 <= k < experts@.len() && 0 <= i < experts@[k].row_ids@.len() ==> r@[(
            #[trigger] experts@[k].row_ids@[i]) as int] == k,
        forall|q: int|
            0 <= q < out_dim ==> #[trigger] r@[q] == -1 || (0 <= r@[q] < experts@.len()
                && experts@[r@[q] as int].row_ids@.contains(q as u32)),
{
    let mut map: Vec<i32> = filled(out_dim, -1i32);
    for k in 0..experts.len()
        invariant
            rows_disjoint(experts@, out_dim as nat),
            experts@.len() <= i32::MAX,
            map@.len() == out_dim,
            forall|l: int, i: int|
                0 <= l < k && 0 <= i < experts@[l].row_ids@.len() ==> map@[(
                #[trigger] experts@[l].row_ids@[i]) as int] == l,
            forall|q: int|
                0 <= q < out_dim ==> #[trigger] map@[q] == -1 || (0 <= map@[q] < k
                    && experts@[map@[q] as int].row_ids@.contains(q as u32)),
    {
        let e = &experts[k];
        assert(ids_within(experts@[k as int].row_ids@, out_dim as nat));
        for j in 0..e.row_ids.len()
            invariant
                *e == experts@[k as int],
                k < experts@.len(),
                rows_disjoint(experts@, out_dim as nat),
                experts@.len() <= i32::MAX,
                ids_within(e.row_ids@, out_dim as nat),
                map@.len() == out_dim,
                forall|l: int, i: int|
                    0 <= l < k && 0 <= i < experts@[l].row_ids@.len() ==> map@[(
                    #[trigger] experts@[l].row_ids@[i]) as int] == l,
                forall|i: int| 0 <= i < j ==> map@[(#[trigger] e.row_ids@[i]) as int] == k,
                forall|q: int|
                    0 <= q < out_dim ==> #[trigger] map@[q] == -1 || (0 <= map@[q] <= k
                        && experts@[map@[q] as int].row_ids@.contains(q as u32)),
        {
            let r: usize = e.row_ids[j] as usize;
            assert(e.row_ids@[j as int] < out_dim);
            let ghost before = map@;
            map[r] = k as i32;
            proof {
                assert forall|l: int, i: int|
                    0 <= l < k && 0 <= i < experts@[l].row_ids@.len() implies map@[(
                #[trigger] experts@[l].row_ids@[i]) as int] == l by {
                    assert(experts@[l].row_ids@[i] != experts@[k as int].row_ids@[j as int]);
                    assert(ids_within(experts@[l].row_ids@, out_dim as nat));
                    assert(before[experts@[l].row_ids@[i] as int] == l);
                }
                assert forall|q: int| 0 <= q < out_dim implies #[trigger] map@[q] == -1 || (0
                    <= map@[q] <= k && experts@[map@[q] as int].row_ids@.contains(q as u32)) by {
                    if q == r {
                        assert(e.row_ids@[j as int] == q as u32);
                    } else {
                        assert(before[q] == map@[q]);
                    }
                }
            }
        }
    }
    map
}

/// The mean that the bias is computed with: the given one, or zeros if its length does
/// not fit.
pub open spec fn fitting_mean<T: Scalar>(mean_input: Seq<T>, in_dim: nat) -> Seq<T> {
    if mean_input.len() == in_dim {
        mean_input
    } else {
        Seq::new(in_dim, |j: int| T::spec_zero())
    }
}

/// The bias of each output row: zero for core rows, and else the inner product of the
/// row's weights, before quantisation, with the mean input.
pub open spec fn bias_of<T: Scalar>(w: Matrix<T>, core_ids: Seq<u32>, mean: Seq<T>) -> Seq<T> {
    Seq::new(
        w.rows as nat,
        |i: int|
            if core_ids.contains(i as u32) {
                T::spec_zero()
            } else {
                dot_spec(w.row_seq(i), mean)
            },
    )
}

/// The bias of each output row.
fn compute_bias<T: Scalar>(w: &Matrix<T>, core_ids: &Vec<u32>, mean: &Vec<T>) -> (bias: Vec<T>)
    requires
        w.wf(),
        w.rows <= u32::MAX,
        ids_within(core_ids@, w.rows as nat),
    ensures
        bias@ == bias_of(*w, core_ids@, mean@),
{
    let out_dim: usize = w.rows;
    let in_dim: usize = w.cols;
    let mut bias: Vec<T> = Vec::with_capacity(out_dim);
    for i in 0..out_dim
        invariant
            w.wf(),
            out_dim == w.rows,
            in_dim == w.cols,
            bias@.len() == i,
            forall|q: int| 0 <= q < i ==> #[trigger] bias@[q] == dot_spec(w.row_seq(q), mean@),
    {
        proof {
            lemma_row_index(out_dim as int, in_dim as int, i as int);
            assert(w.data.len() == w.data@.len());
        }
        let row = slice_subrange(w.data.as_slice(), i * in_dim, (i + 1) * in_dim);
        bias.push(dot(row, mean));
    }
    for i in 0..core_ids.len()
        invariant
            out_dim == w.rows,
            w.rows <= u32::MAX,
            ids_within(core_ids@, w.rows as nat),
            bias@.len() == out_dim,
            forall|q: int|
                0 <= q < out_dim ==> #[trigger] bias@[q] == if core_ids@.take(i as int).contains(
                    q as u32,
                ) {
                    T::spec_zero()
                } else {
                    dot_spec(w.row_seq(q), mean@)
                },
    {
        let r: usize = core_ids[i] as usize;
        assert(core_ids@[i as int] < w.rows);
        let ghost before = bias@;
        let ghost done = core_ids@.take(i as int);
        let ghost now = core_ids@.take(i + 1);
        bias[r] = T::zero();
        assert forall|q: int| 0 <= q < out_dim implies #[trigger] bias@[q] == if now.contains(
            q as u32,
        ) {
            T::spec_zero()
        } else {
            dot_spec(w.row_seq(q), mean@)
        } by {
            if q == r {
                assert(now[i as int] == q as u32);
            } else {
                assert(before[q] == bias@[q]);
                if now.contains(q as u32) {
                    let t = choose|t: int| 0 <= t < now.len() && now[t] == q as u32;
                    assert(done[t] == q as u32);
                }
                if done.contains(q as u32) {
                    let t = choose|t: int| 0 <= t < done.len() && done[t] == q as u32;
                    assert(now[t] == q as u32);
                }
            }
        }
    }
    assert(core_ids@.take(core_ids@.len() as int) =~= core_ids@);
    assert(bias@ =~= bias_of(*w, core_ids@, mean@));
    bias
}

/// Whether `table` holds for every code and every output row of an expert the inner
/// product of the code's entry with the row as the kernels compute with it, and zero for
/// the other rows.
pub open spec fn is_bias_table<T: Scalar>(
    table: Seq<T>,
    cb: PqCodebook<T>,
    experts: Seq<MicroExpert<T>>,
    pq_codebook: Option<PqCodebook<T>>,
    row_to_expert: Seq<i32>,
    in_dim: nat,
) -> bool {
    let out_dim = row_to_expert.len() as int;
    &&& table.len() == cb.entries() * out_dim
    &&& forall|c: int, i: int|
        0 <= c < cb.entries() && 0 <= i < out_dim && row_to_expert[i] < 0 ==> #[trigger] table[c
            * out_dim + i] == T::spec_zero()
    &&& forall|c: int, k: int, j: int|
        0 <= c < cb.entries() && 0 <= k < experts.len() && 0 <= j < experts[k].row_ids@.len()
            ==> table[c * out_dim + #[trigger] experts[k].row_ids@[j]] == dot_spec(
            quantized_row(experts[k], pq_codebook, in_dim, j),
            #[trigger] cb.entry(0, c),
        )
}

/// The bias table of a layer.
fn compute_bias_table<T: Scalar>(
    cb: &PqCodebook<T>,
    experts: &Vec<MicroExpert<T>>,
    pq_codebook: &Option<PqCodebook<T>>,
    row_to_expert: &Vec<i32>,
    in_dim: usize,
) -> (table: Vec<T>)
    requires
        cb.wf(),
        cb.num_sub_vectors == 1,
        cb.entries() * row_to_expert@.len() <= usize::MAX,
        row_to_expert@.len() * in_dim <= usize::MAX,
        rows_disjoint(experts@, row_to_expert@.len()),
        forall|k: int|
            0 <= k < experts@.len() ==> expert_complete(
                #[trigger] experts@[k],
                *pq_codebook,
                in_dim as nat,
            ),
        forall|k: int, i: int|
            0 <= k < experts@.len() && 0 <= i < experts@[k].row_ids@.len() ==> row_to_expert@[(
            #[trigger] experts@[k].row_ids@[i]) as int] == k,
    ensures
        is_bias_table(
            table@,
            *cb,
            experts@,
            *pq_codebook,
            row_to_expert@,
            in_dim as nat,
        ),
{
    let out_dim: usize = row_to_expert.len();
    let n_codes: usize = cb.num_entries();
    let wq = reconstruct_quantized_rows(experts, pq_codebook, out_dim, in_dim);
    let mut table: Vec<T> = Vec::with_capacity(n_codes * out_dim);
    let zero = T::zero();
    assert(0 * out_dim == 0) by (nonlinear_arith);
    for c in 0..n_codes
        invariant
            cb.wf(),
            cb.num_sub_vectors == 1,
            n_codes == cb.entries(),
            out_dim == row_to_expert@.len(),
            wq@.len() == out_dim * in_dim,
            zero == T::spec_zero(),
            table@.len() == c * out_dim,
            forall|d: int, i: int|
                0 <= d < c && 0 <= i < out_dim ==> #[trigger] table@[d * out_dim + i]
                    == if row_to_expert@[i] < 0 {
                    T::spec_zero()
                } else {
                    dot_spec(row_of(wq@, in_dim as int, i), cb.entry(0, d))
                },
    {
        let cent = crate::pq::entry_slice(cb, n_codes, 0, c);
        assert forall|d: int, q: int|
            0 <= d < n_codes && 0 <= q < out_dim && d * out_dim + q < c * out_dim implies
            #[trigger] table@[d * out_dim + q] == if row_to_expert@[q] < 0 {
            T::spec_zero()
        } else {
            dot_spec(row_of(wq@, in_dim as int, q), cb.entry(0, d))
        } by {
            if d >= c {
                assert(d * out_dim >= c * out_dim) by (nonlinear_arith)
                    requires
                        d >= c,
                        out_dim >= 0,
                ;
            }
        }
        for i in 0..out_dim
            invariant
                cb.wf(),
                c < n_codes,
                n_codes == cb.entries(),
                out_dim == row_to_expert@.len(),
                wq@.len() == out_dim * in_dim,
                zero == T::spec_zero(),
                cent@ == cb.entry(0, c as int),
                table@.len() == c * out_dim + i,
                forall|d: int, q: int|
                    0 <= d < n_codes && 0 <= q < out_dim && d * out_dim + q < c * out_dim + i
                        ==> #[trigger] table@[d * out_dim + q] == if row_to_expert@[q] < 0 {
                        T::spec_zero()
                    } else {
                        dot_spec(row_of(wq@, in_dim as int, q), cb.entry(0, d))
                    },
        {
            let v = if row_to_expert[i] < 0 {
                zero
            } else {
                proof {
                    lemma_row_index(out_dim as int, in_dim as int, i as int);
                    assert(wq.len() == wq@.len());
                }
                let row = slice_subrange(wq.as_slice(), i * in_dim, (i + 1) * in_dim);
                dot(row, cent)
            };
            let ghost before = table@;
            table.push(v);
            assert forall|d: int, q: int|
                0 <= d < n_codes && 0 <= q < out_dim && d * out_dim + q < c * out_dim + i + 1 implies
                #[trigger] table@[d * out_dim + q] == if row_to_expert@[q] < 0 {
                T::spec_zero()
            } else {
                dot_spec(row_of(wq@, in_dim as int, q), cb.entry(0, d))
            } by {
                lemma_cell_index(n_codes as int, out_dim as int, d, q);
                if d * out_dim + q < c * out_dim + i {
                    assert(table@[d * out_dim + q] == before[d * out_dim + q]);
                } else {
                    crate::tensor::lemma_cell_unique(out_dim as int, d, q, c as int, i as int);
                }
            }
        }
        assert((c + 1) * out_dim == c * out_dim + out_dim) by (nonlinear_arith);
        assert forall|d: int, i: int| 0 <= d < c + 1 && 0 <= i < out_dim implies #[trigger] table@[d
            * out_dim + i] == if row_to_expert@[i] < 0 {
            T::spec_zero()
        } else {
            dot_spec(row_of(wq@, in_dim as int, i), cb.entry(0, d))
        } by {
            lemma_cell_index(c + 1, out_dim as int, d, i);
        }
    }
    proof {
        assert forall|c: int, k: int, j: int|
            0 <= c < cb.entries() && 0 <= k < experts@.len() && 0 <= j < experts@[k].row_ids@.len() implies
            table@[c * out_dim + #[trigger] experts@[k].row_ids@[j]] == dot_spec(
            quantized_row(experts@[k], *pq_codebook, in_dim as nat, j),
            #[trigger] cb.entry(0, c),
        ) by {
            assert(ids_within(experts@[k].row_ids@, out_dim as nat));
            let i = experts@[k].row_ids@[j] as int;
            assert(row_to_expert@[i] == k);
            assert(table@[c * out_dim + i] == dot_spec(
                row_of(wq@, in_dim as int, i),
                cb.entry(0, c),
            ));
        }
    }
    table
}

/// The sum of the numbers of members of the first `k` clusters.
pub open spec fn member_total(assignment: Seq<int>, k: nat) -> nat
    decreases k,
{
    if k == 0 {
        0
    } else {
        member_total(assignment, (k - 1) as nat) + members_upto(
            assignment,
            k - 1,
            assignment.len(),
        )
    }
}

proof fn lemma_members_drop(a: Seq<int>, c: int, n: nat)
    requires
        n < a.len(),
    ensures
        members_upto(a, c, n) == members_upto(a.drop_last(), c, n),
    decreases n,
{
    if n > 0 {
        lemma_members_drop(a, c, (n - 1) as nat);
    }
}

proof fn lemma_total_drop(a: Seq<int>, k: nat)
    requires
        a.len() > 0,
        a.last() >= 0,
    ensures
        member_total(a, k) == member_total(a.drop_last(), k) + if a.last() < k {
            1nat
        } else {
            0nat
        },
    decreases k,
{
    if k > 0 {
        lemma_total_drop(a, (k - 1) as nat);
        lemma_members_drop(a, k - 1, (a.len() - 1) as nat);
    }
}

/// Every row is a member of one cluster.
proof fn lemma_total_is_all(a: Seq<int>, k: nat)
    requires
        forall|i: int| 0 <= i < a.len() ==> 0 <= (#[trigger] a[i]) < k,
    ensures
        member_total(a, k) == a.len(),
    decreases a.len(),
{
    if a.len() == 0 {
        lemma_total_empty(a, k);
    } else {
        assert(0 <= a[a.len() - 1] < k);
        lemma_total_drop(a, k);
        let b = a.drop_last();
        assert forall|i: int| 0 <= i < b.len() implies 0 <= (#[trigger] b[i]) < k by {
            assert(b[i] == a[i]);
        }
        lemma_total_is_all(b, k);
    }
}

proof fn lemma_total_empty(a: Seq<int>, k: nat)
    requires
        a.len() == 0,
    ensures
        member_total(a, k) == 0,
    decreases k,
{
    if k > 0 {
        lemma_total_empty(a, (k - 1) as nat);
    }
}

proof fn lemma_expert_rows_total<T>(experts: Seq<MicroExpert<T>>, a: Seq<int>, k: nat)
    requires
        k <= experts.len(),
        forall|i: int|
            0 <= i < experts.len() ==> (#[trigger] experts[i]).row_ids@.len() == members_upto(
                a,
                i,
                a.len(),
            ),
    ensures
        expert_rows(experts, k) == member_total(a, k),
    decreases k,
{
    if k > 0 {
        lemma_expert_rows_total(experts, a, (k - 1) as nat);
    }
}

/// What the layer's fields are, given how the rows were split and clustered.
pub open spec fn layer_built_from<T: Scalar>(
    sl: SparseLayer<T>,
    w: Matrix<T>,
    mean: Seq<T>,
    cfg: TransmuteConfig<T>,
    o: OutlierResult<T>,
    cl: ClusterResult<T>,
) -> bool {
    &&& sl.dense_core.rows == o.dense_core.rows
    &&& sl.dense_core.cols == o.dense_core.cols
    &&& sl.dense_core.data@ == o.dense_core.data@
    &&& sl.core_row_ids@ == o.core_row_ids@
    &&& sl.experts@.len() == cl.members@.len()
    &&& forall|k: int|
        0 <= k < sl.experts@.len() ==> expert_of_cluster(
            #[trigger] sl.experts@[k],
            k,
            cl,
            o.residual_row_ids@,
            mean,
        )
    &&& match cfg.quant {
        QuantSchemeConfig::Ternary => {
            &&& sl.pq_codebook is None
            &&& forall|k: int|
                0 <= k < sl.experts@.len() ==> ternary_rows(
                    #[trigger] sl.experts@[k],
                    cl.members@[k]@,
                    o.residual,
                )
        },
        QuantSchemeConfig::Pq { num_sub_vectors, nbits, iters, seed } => {
            sl.pq_codebook matches Some(cb) && {
                &&& is_sub_vector_count(cb.num_sub_vectors as nat, w.cols as nat, num_sub_vectors as nat)
                &&& trained_on(cb, normalized_rows(o.residual), nbits, iters as nat, seed)
                &&& forall|k: int|
                    0 <= k < sl.experts@.len() ==> pq_rows(
                        #[trigger] sl.experts@[k],
                        cl.members@[k]@,
                        o.residual,
                        cb,
                    )
            }
        },
    }
}

/// The calibration rows as sequences.
pub open spec fn cal_seqs<T>(cal_rows: Option<&[Vec<T>]>) -> Option<Seq<Seq<T>>> {
    match cal_rows {
        Some(rows) => Some(row_seqs(rows@)),
        None => None,
    }
}

/// Whether the layer's bias table is the one for the calibration rows, or none where the
/// mode asks for none or there are no rows.
pub open spec fn table_built_from<T: Scalar>(
    sl: SparseLayer<T>,
    cfg: TransmuteConfig<T>,
    cal: Option<Seq<Seq<T>>>,
) -> bool {
    match (cfg.bias_mode, cal) {
        (BiasMode::Adaptive { nbits, iters, seed }, Some(rows)) if rows.len() > 0 => {
            sl.input_codebook matches Some(cb) && sl.bias_table matches Some(table) && {
                &&& cb.num_sub_vectors == 1
                &&& trained_on(cb, rows, nbits, iters as nat, seed)
                &&& is_bias_table(
                    table@,
                    cb,
                    sl.experts@,
                    sl.pq_codebook,
                    sl.row_to_expert@,
                    sl.in_dim as nat,
                )
            }
        },
        _ => sl.input_codebook is None && sl.bias_table is None,
    }
}

/// Whether `sl` is the layer that transmuting `w` gives.
pub open spec fn is_transmuted<T: Scalar>(
    sl: SparseLayer<T>,
    w: Matrix<T>,
    mean_input: Seq<T>,
    cal: Option<Seq<Seq<T>>>,
    cfg: TransmuteConfig<T>,
) -> bool {
    let mean = fitting_mean(mean_input, w.cols as nat);
    &&& sl.out_dim == w.rows
    &&& sl.in_dim == w.cols
    &&& sl.mean_input@ == mean
    &&& exists|o: OutlierResult<T>, cl: ClusterResult<T>|
        is_outlier_split(w, cfg.outlier, o) && is_clustering(o.residual, cfg.cluster, cl)
            && #[trigger] layer_built_from(sl, w, mean, cfg, o, cl)
    &&& sl.bias@ == bias_of(w, sl.core_row_ids@, mean)
    &&& rows_owned(sl)
    &&& forall|q: int|
        0 <= q < sl.out_dim ==> (#[trigger] sl.row_to_expert@[q] == -1 <==> sl.core_row_ids@.contains(
            q as u32,
        ))
    &&& sl.covered() == sl.out_dim
    &&& table_built_from(sl, cfg, cal)
}

/// Whether the codebooks and the bias table of a matrix with the given shape can be
/// addressed.
pub open spec fn sizes_addressable<T>(rows: int, cols: int, cfg: TransmuteConfig<T>) -> bool {
    &&& cfg.quant matches QuantSchemeConfig::Pq { num_sub_vectors, nbits, iters, seed } ==> {
        &&& pow2(nbits as nat) <= usize::MAX
        &&& cols * pow2(nbits as nat) <= usize::MAX
        &&& cols == 0 ==> at_least_one(num_sub_vectors as nat) * pow2(nbits as nat) <= usize::MAX
    }
    &&& cfg.bias_mode matches BiasMode::Adaptive { nbits, iters, seed } ==> {
        &&& pow2(nbits as nat) <= usize::MAX
        &&& pow2(nbits as nat) * cols <= usize::MAX
        &&& pow2(nbits as nat) * rows <= usize::MAX
    }
}

/// Whether the sizes that the configuration leads to can be addressed, and the
/// calibration rows fit the matrix.
pub open spec fn config_fits<T>(
    w: Matrix<T>,
    cal: Option<Seq<Seq<T>>>,
    cfg: TransmuteConfig<T>,
) -> bool {
    &&& sizes_addressable(w.rows as int, w.cols as int, cfg)
    &&& cfg.bias_mode is Adaptive ==> (cal matches Some(rows) ==> rows_have_dim(
        rows,
        w.cols as nat,
    ))
}

/// What clustering the residual gives fits it.
pub proof fn lemma_clusters<T: Scalar>(
    w: Matrix<T>,
    cfg: TransmuteConfig<T>,
    o: OutlierResult<T>,
    cl: ClusterResult<T>,
)
    requires
        w.wf(),
        w.rows <= i32::MAX,
        is_outlier_split(w, cfg.outlier, o),
        is_clustering(o.residual, cfg.cluster, cl),
    ensures
        clusters_fit(cl, o.residual, o.residual_row_ids@),
        cl.members@.len() <= w.rows,
        forall|k: int|
            0 <= k < cl.members@.len() ==> (#[trigger] cl.members@[k])@.len() == members_upto(
                assigned_clusters(cl),
                k,
                assigned_clusters(cl).len(),
            ),
{
    let a = assigned_clusters(cl);
    assert(a.len() == o.residual.rows);
    assert forall|k: int, i: int| 0 <= k < cl.members@.len() && 0 <= i < cl.members@[k]@.len() implies (
    #[trigger] cl.members@[k]@[i]) < o.residual.rows by {
        let m = cl.members@[k]@;
        assert(m[i] < a.len());
    }
    assert forall|k: int| 0 <= k < cl.members@.len() implies (#[trigger] cl.members@[k])@.len()
        <= o.residual.rows by {
        let m = cl.members@[k]@;
        crate::pq::lemma_members_bound(a, k, a.len());
    }
}

/// The experts of a transmuted matrix and its core share out the rows.
pub proof fn lemma_experts_disjoint<T: Scalar>(
    experts: Seq<MicroExpert<T>>,
    w: Matrix<T>,
    cfg: TransmuteConfig<T>,
    o: OutlierResult<T>,
    cl: ClusterResult<T>,
    mean: Seq<T>,
)
    requires
        w.wf(),
        w.rows <= i32::MAX,
        is_outlier_split(w, cfg.outlier, o),
        is_clustering(o.residual, cfg.cluster, cl),
        experts.len() == cl.members@.len(),
        forall|k: int|
            0 <= k < experts.len() ==> expert_of_cluster(
                #[trigger] experts[k],
                k,
                cl,
                o.residual_row_ids@,
                mean,
            ),
    ensures
        rows_disjoint(experts, w.rows as nat),
        o.core_row_ids@.len() + expert_rows(experts, experts.len()) == w.rows,
        forall|k: int, i: int, j: int|
            0 <= k < experts.len() && 0 <= i < experts[k].row_ids@.len() && 0 <= j
                < o.core_row_ids@.len() ==> #[trigger] experts[k].row_ids@[i]
                != #[trigger] o.core_row_ids@[j],
        forall|q: int|
            0 <= q < w.rows && !#[trigger] o.core_row_ids@.contains(q as u32) ==> exists|k: int, i: int|
                0 <= k < experts.len() && 0 <= i < experts[k].row_ids@.len()
                    && #[trigger] experts[k].row_ids@[i] == q,
{
    let a = assigned_clusters(cl);
    let ids = o.residual_row_ids@;
    lemma_clusters(w, cfg, o, cl);
    assert(splits_rows(o.core_row_ids@, ids, w.rows as nat));
    assert forall|k: int| 0 <= k < experts.len() implies ids_within(
        (#[trigger] experts[k]).row_ids@,
        w.rows as nat,
    ) && experts[k].row_ids@.no_duplicates() by {
        let m = cl.members@[k]@;
        let e = experts[k].row_ids@;
        assert(e == cluster_row_ids(m, ids));
        assert forall|i: int| 0 <= i < e.len() implies (#[trigger] e[i]) < w.rows by {
            assert(cl.members@[k]@[i] < o.residual.rows);
            assert(ids[m[i] as int] < w.rows);
        }
        assert forall|i: int, j: int| 0 <= i < e.len() && 0 <= j < e.len() && i != j implies e[i]
            != e[j] by {
            assert(cl.members@[k]@[i] < o.residual.rows);
            assert(cl.members@[k]@[j] < o.residual.rows);
            if i < j {
                assert(m[i] < m[j]);
                assert(ids[m[i] as int] < ids[m[j] as int]);
            } else {
                assert(m[j] < m[i]);
                assert(ids[m[j] as int] < ids[m[i] as int]);
            }
        }
    }
    assert forall|k: int, i: int, l: int, j: int|
        0 <= k < l < experts.len() && 0 <= i < experts[k].row_ids@.len() && 0 <= j
            < experts[l].row_ids@.len() implies #[trigger] experts[k].row_ids@[i]
        != #[trigger] experts[l].row_ids@[j] by {
        let m = cl.members@[k]@;
        let p = cl.members@[l]@;
        assert(experts[k].row_ids@ == cluster_row_ids(m, ids));
        assert(experts[l].row_ids@ == cluster_row_ids(p, ids));
        assert(a[m[i] as int] == k);
        assert(a[p[j] as int] == l);
        assert(cl.members@[k]@[i] < o.residual.rows);
        assert(cl.members@[l]@[j] < o.residual.rows);
        if m[i] < p[j] {
            assert(ids[m[i] as int] < ids[p[j] as int]);
        } else {
            assert(p[j] < m[i]);
            assert(ids[p[j] as int] < ids[m[i] as int]);
        }
    }
    assert forall|k: int, i: int, j: int|
        0 <= k < experts.len() && 0 <= i < experts[k].row_ids@.len() && 0 <= j
            < o.core_row_ids@.len() implies #[trigger] experts[k].row_ids@[i]
        != #[trigger] o.core_row_ids@[j] by {
        let m = cl.members@[k]@;
        assert(experts[k].row_ids@ == cluster_row_ids(m, ids));
        assert(cl.members@[k]@[i] < o.residual.rows);
        assert(o.core_row_ids@[j] != ids[m[i] as int]);
    }
    assert forall|q: int|
        0 <= q < w.rows && !#[trigger] o.core_row_ids@.contains(q as u32) implies exists|k: int, i: int|
        0 <= k < experts.len() && 0 <= i < experts[k].row_ids@.len()
            && #[trigger] experts[k].row_ids@[i] == q by {
        assert(ids.contains(q as u32));
        let r = choose|r: int| 0 <= r < ids.len() && ids[r] == q as u32;
        let k = a[r];
        assert(cl.assignment@[r] < cl.members@.len());
        assert(0 <= k < experts.len());
        let m = cl.members@[k]@;
        assert(m.contains(r as usize));
        let i = choose|i: int| 0 <= i < m.len() && m[i] == r as usize;
        assert(experts[k].row_ids@ == cluster_row_ids(m, ids));
        assert(experts[k].row_ids@[i] == q);
    }
    assert forall|i: int| 0 <= i < a.len() implies 0 <= (#[trigger] a[i]) < experts.len() by {
        assert(cl.assignment@[i] < cl.members@.len());
    }
    lemma_total_is_all(a, experts.len());
    assert forall|k: int| 0 <= k < experts.len() implies (#[trigger] experts[k]).row_ids@.len()
        == members_upto(a, k, a.len()) by {
        assert(cl.members@[k]@.len() == members_upto(a, k, a.len()));
    }
    lemma_expert_rows_total(experts, a, experts.len());
}

/// Turns a weight matrix into a sparse layer. `mean_input` is the mean of the
/// calibration inputs; `cal_rows` are the inputs themselves, where there are any, from
/// which the bias table of the adaptive mode is computed. Product quantisation needs at
/// least one row.
pub fn transmute_matrix_with_cal<T: Scalar>(
    w: &Matrix<T>,
    mean_input: &[T],
    cal_rows: Option<&[Vec<T>]>,
    cfg: &TransmuteConfig<T>,
) -> (r: NseResult<SparseLayer<T>>)
    requires
        w.wf(),
        w.rows <= i32::MAX,
        config_fits(*w, cal_seqs(cal_rows), *cfg),
    ensures
        w.rows == 0 && cfg.quant is Pq ==> (r matches Err(NseError::Other(m)) && m@
            == "PQ requires at least one residual row to train the codebook"@),
        w.rows > 0 || cfg.quant is Ternary ==> (r matches Ok(sl) && is_transmuted(
            sl,
            *w,
            mean_input@,
            cal_seqs(cal_rows),
            *cfg,
        )),
{
    let out_dim: usize = w.rows;
    let in_dim: usize = w.cols;
    let mean: Vec<T> = if mean_input.len() == in_dim {
        copy_all(mean_input)
    } else {
        filled(in_dim, T::zero())
    };
    assert(mean@ == fitting_mean(mean_input@, in_dim as nat));
    let outlier = match extract(w, &cfg.outlier) {
        Ok(o) => o,
        Err(e) => return Err(e),
    };
    proof {
        assert(w.rows == 0 <==> outlier.residual.rows == 0);
    }
    let clusters = match cluster(&outlier.residual, &cfg.cluster) {
        Ok(c) => c,
        Err(e) => return Err(e),
    };
    proof {
        lemma_clusters(*w, *cfg, outlier, clusters);
    }
    let experts: Vec<MicroExpert<T>>;
    let pq_codebook: Option<PqCodebook<T>>;
    match &cfg.quant {
        QuantSchemeConfig::Ternary => {
            experts =
            build_ternary_experts(
                &clusters,
                &outlier.residual,
                &outlier.residual_row_ids,
                &mean,
            );
            pq_codebook = None;
        },
        QuantSchemeConfig::Pq { num_sub_vectors, nbits, iters, seed } => {
            match build_pq_experts(
                &clusters,
                &outlier.residual,
                &outlier.residual_row_ids,
                &mean,
                *num_sub_vectors,
                *nbits,
                *iters,
                *seed,
            ) {
                Ok((e, cb)) => {
                    experts = e;
                    pq_codebook = Some(cb);
                },
                Err(e) => return Err(e),
            }
        },
    }
    proof {
        lemma_experts_disjoint(experts@, *w, *cfg, outlier, clusters, mean@);
        assert(ids_within(outlier.core_row_ids@, w.rows as nat));
    }
    let bias = compute_bias(w, &outlier.core_row_ids, &mean);
    let row_to_expert = map_rows(&experts, out_dim);
    let input_codebook: Option<PqCodebook<T>>;
    let bias_table: Option<Vec<T>>;
    proof {
        assert forall|k: int| 0 <= k < experts@.len() implies expert_complete(
            #[trigger] experts@[k],
            pq_codebook,
            in_dim as nat,
        ) by {
            assert(expert_of_cluster(
                experts@[k],
                k,
                clusters,
                outlier.residual_row_ids@,
                mean@,
            ));
        }
        assert(w.data.len() == w.data@.len());
    }
    match (&cfg.bias_mode, cal_rows) {
        (BiasMode::Adaptive { nbits, iters, seed }, Some(rows)) if rows.len() > 0 => {
            proof {
                let rs = row_seqs(rows@);
                assert(rs[0].len() == in_dim);
                assert(rows_dim(rs) == in_dim);
                assert(in_dim as nat % 1 == 0);
                assert(in_dim as nat / 1 == in_dim);
            }
            let cb = train_pq(rows, 1, *nbits, *iters, *seed);
            let table = compute_bias_table(&cb, &experts, &pq_codebook, &row_to_expert, in_dim);
            input_codebook = Some(cb);
            bias_table = Some(table);
        },
        _ => {
            input_codebook = None;
            bias_table = None;
        },
    }
    let core = Matrix {
        rows: outlier.dense_core.rows,
        cols: outlier.dense_core.cols,
        data: copy_all(&outlier.dense_core.data),
    };
    let core_row_ids = copy_all(&outlier.core_row_ids);
    let sl = SparseLayer {
        out_dim,
        in_dim,
        dense_core: core,
        core_row_ids,
        experts,
        bias,
        mean_input: mean,
        pq_codebook,
        row_to_expert,
        input_codebook,
        bias_table,
    };
    proof {
        assert(layer_built_from(sl, *w, mean@, *cfg, outlier, clusters));
        lemma_map_is_owner(sl, *w, outlier);
    }
    Ok(sl)
}

/// The row-to-expert map of a layer whose experts list every row that is not in the core.
proof fn lemma_map_is_owner<T: Scalar>(sl: SparseLayer<T>, w: Matrix<T>, o: OutlierResult<T>)
    requires
        sl.out_dim == w.rows,
        w.rows <= u32::MAX,
        sl.core_row_ids@ == o.core_row_ids@,
        ascending(o.core_row_ids@),
        ids_within(o.core_row_ids@, w.rows as nat),
        rows_disjoint(sl.experts@, w.rows as nat),
        sl.row_to_expert@.len() == sl.out_dim,
        forall|k: int, i: int|
            0 <= k < sl.experts@.len() && 0 <= i < sl.experts@[k].row_ids@.len()
                ==> sl.row_to_expert@[(#[trigger] sl.experts@[k].row_ids@[i]) as int] == k,
        forall|q: int|
            0 <= q < sl.out_dim ==> #[trigger] sl.row_to_expert@[q] == -1 || (0
                <= sl.row_to_expert@[q] < sl.experts@.len()
                && sl.experts@[sl.row_to_expert@[q] as int].row_ids@.contains(q as u32)),
        forall|k: int, i: int, j: int|
            0 <= k < sl.experts@.len() && 0 <= i < sl.experts@[k].row_ids@.len() && 0 <= j
                < o.core_row_ids@.len() ==> #[trigger] sl.experts@[k].row_ids@[i]
                != #[trigger] o.core_row_ids@[j],
        forall|q: int|
            0 <= q < w.rows && !#[trigger] o.core_row_ids@.contains(q as u32) ==> exists|k: int, i: int|
                0 <= k < sl.experts@.len() && 0 <= i < sl.experts@[k].row_ids@.len()
                    && #[trigger] sl.experts@[k].row_ids@[i] == q,
    ensures
        rows_owned(sl),
        forall|q: int|
            0 <= q < sl.out_dim ==> (#[trigger] sl.row_to_expert@[q] == -1
                <==> sl.core_row_ids@.contains(q as u32)),
{
    let map = sl.row_to_expert@;
    let core = o.core_row_ids@;
    assert forall|q: int| 0 <= q < sl.out_dim implies (#[trigger] map[q] == -1 <==> core.contains(
        q as u32,
    )) by {
        if core.contains(q as u32) {
            let j = choose|j: int| 0 <= j < core.len() && core[j] == q as u32;
            if map[q] != -1 {
                let k = map[q] as int;
                let e = sl.experts@[k].row_ids@;
                let i = choose|i: int| 0 <= i < e.len() && e[i] == q as u32;
                assert(sl.experts@[k].row_ids@[i] != core[j]);
            }
        } else {
            let (k, i) = choose|k: int, i: int|
                0 <= k < sl.experts@.len() && 0 <= i < sl.experts@[k].row_ids@.len()
                    && #[trigger] sl.experts@[k].row_ids@[i] == q;
            assert(map[sl.experts@[k].row_ids@[i] as int] == k);
        }
    }
    assert forall|i: int| 0 <= i < core.len() implies map[(#[trigger] core[i]) as int] == -1 by {
        assert(core[i] < w.rows);
        assert(core.contains(core[i]));
        assert(core[i] as int as u32 == core[i]);
    }
}

/// Turns a weight matrix into a sparse layer without calibration rows.
pub fn transmute_matrix<T: Scalar>(w: &Matrix<T>, mean_input: &[T], cfg: &TransmuteConfig<T>) -> (r:
    NseResult<SparseLayer<T>>)
    requires
        w.wf(),
        w.rows <= i32::MAX,
        config_fits(*w, None, *cfg),
    ensures
        w.rows == 0 && cfg.quant is Pq ==> (r matches Err(NseError::Other(m)) && m@
            == "PQ requires at least one residual row to train the codebook"@),
        w.rows > 0 || cfg.quant is Ternary ==> (r matches Ok(sl) && is_transmuted(
            sl,
            *w,
            mean_input@,
            None,
            *cfg,
        )),
{
    transmute_matrix_with_cal(w, mean_input, None, cfg)
}

} // verus!
