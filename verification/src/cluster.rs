//! Clustering of the residual rows into micro-experts, by spherical k-means: rows and
//! centroids are scaled to length one, and a row belongs to the centroid with which it
//! has the highest inner product. Clustering only groups row numbers; the rows stay as
//! they are.

use vstd::prelude::*;
use vstd::slice::slice_subrange;
use crate::error::NseResult;
use crate::outlier::{norm, norm_spec};
use crate::pq::{
    as_ints, center_count, initial_centers, member_sum, members_upto, row_seqs, rows_have_dim,
};
use crate::rng::{law_shuffled_is_permutation, shuffled, shuffled_spec};
use crate::scalar::{dot, dot_spec, Scalar};
use crate::tensor::{copy_all, filled, lemma_row_index, row_of, Matrix};

verus! {

/// The size of one micro-expert in bytes that fits the caches.
pub const MICRO_EXPERT_TARGET_BYTES: usize = 65536;

/// How to cluster.
#[derive(Debug, Clone)]
pub struct ClusterConfig {
    /// The number of micro-experts. If 0, it is derived from the target size.
    pub num_experts: usize,
    /// The highest number of rounds.
    pub iters: usize,
    /// Chooses the rows that the centroids start from.
    pub seed: u64,
}

impl Default for ClusterConfig {
    fn default() -> (r: ClusterConfig)
        ensures
            r.num_experts == 0,
            r.iters == 10,
            r.seed == 7,
    {
        ClusterConfig { num_experts: 0, iters: 10, seed: 7 }
    }
}

/// Rows grouped into clusters.
#[derive(Debug, Clone)]
pub struct ClusterResult<T> {
    /// The cluster of each row.
    pub assignment: Vec<u32>,
    /// The rows of each cluster, ascending.
    pub members: Vec<Vec<usize>>,
    /// The centroid of each cluster.
    pub centroids: Matrix<T>,
}

/// The number of rows that have the target size, at four bytes a weight, but at least
/// one.
pub open spec fn rows_per_expert(cols: int) -> int {
    if cols == 0 {
        MICRO_EXPERT_TARGET_BYTES as int
    } else if MICRO_EXPERT_TARGET_BYTES < 4 * cols {
        1
    } else {
        MICRO_EXPERT_TARGET_BYTES as int / (4 * cols)
    }
}

/// The number of clusters that is derived from the target size: as many as there are
/// target sizes in the rows, counting a started one.
pub open spec fn derived_experts(rows: int, cols: int) -> int {
    (rows + rows_per_expert(cols) - 1) / rows_per_expert(cols)
}

/// The number of clusters for `rows` rows: the configured or the derived one, but no
/// more than there are rows and at least one.
pub open spec fn expert_count(rows: nat, cols: nat, configured: nat) -> nat {
    center_count(
        rows,
        if configured > 0 {
            configured
        } else {
            derived_experts(rows as int, cols as int) as nat
        },
    )
}

/// A row scaled to length one. A row of length zero stays as it is.
pub open spec fn unit<T: Scalar>(row: Seq<T>) -> Seq<T> {
    if T::spec_zero().below_spec(norm_spec(row)) {
        row.map_values(|v: T| v.over_spec(norm_spec(row)))
    } else {
        row
    }
}

/// The place of the highest of the first `n` scores, and that score: the first place,
/// where several are highest.
pub open spec fn best_upto<T: Scalar>(s: Seq<T>, n: nat) -> (int, T)
    decreases n,
{
    if n == 0 {
        (0, T::spec_lowest())
    } else {
        let best = best_upto(s, (n - 1) as nat);
        if best.1.below_spec(s[n - 1]) {
            (n - 1, s[n - 1])
        } else {
            best
        }
    }
}

/// The inner products of a point with the centroids.
pub open spec fn matches_with<T: Scalar>(p: Seq<T>, centers: Seq<Seq<T>>) -> Seq<T> {
    Seq::new(centers.len(), |c: int| dot_spec(p, centers[c]))
}

/// The centroid that a point belongs to.
pub open spec fn best_center<T: Scalar>(p: Seq<T>, centers: Seq<Seq<T>>) -> int {
    best_upto(matches_with(p, centers), centers.len()).0
}

/// The centroid that each point belongs to.
pub open spec fn best_centers<T: Scalar>(points: Seq<Seq<T>>, centers: Seq<Seq<T>>) -> Seq<int> {
    points.map_values(|p: Seq<T>| best_center(p, centers))
}

/// The centroids that an assignment gives: the direction of the sum of the members of
/// each, or the centroid as it was where it has none.
pub open spec fn directions<T: Scalar>(
    points: Seq<Seq<T>>,
    assignment: Seq<int>,
    centers: Seq<Seq<T>>,
    dim: nat,
) -> Seq<Seq<T>> {
    Seq::new(
        centers.len(),
        |c: int|
            if members_upto(assignment, c, points.len()) == 0 {
                centers[c]
            } else {
                unit(
                    Seq::new(
                        dim,
                        |j: int| member_sum(points, assignment, c, j, points.len()),
                    ),
                )
            },
    )
}

/// Assigning and averaging in turn, up to `iters` times or until the assignment stays
/// as it was.
pub open spec fn spherical<T: Scalar>(
    points: Seq<Seq<T>>,
    centers: Seq<Seq<T>>,
    assignment: Seq<int>,
    dim: nat,
    iters: nat,
) -> Seq<Seq<T>>
    decreases iters,
{
    if iters == 0 {
        centers
    } else {
        let a = best_centers(points, centers);
        let c = directions(points, a, centers, dim);
        if a == assignment {
            c
        } else {
            spherical(points, c, a, dim, (iters - 1) as nat)
        }
    }
}

/// The rows of a matrix, scaled to length one.
pub open spec fn unit_rows<T: Scalar>(w: Matrix<T>) -> Seq<Seq<T>> {
    Seq::new(w.rows as nat, |r: int| unit(w.row_seq(r)))
}

/// The centroids that clustering the rows of `w` gives.
pub open spec fn cluster_centers<T: Scalar>(w: Matrix<T>, cfg: ClusterConfig) -> Seq<Seq<T>> {
    let points = unit_rows(w);
    spherical(
        points,
        initial_centers(
            points,
            expert_count(w.rows as nat, w.cols as nat, cfg.num_experts as nat),
            cfg.seed,
        ),
        Seq::new(points.len(), |i: int| 0int),
        w.cols as nat,
        cfg.iters as nat,
    )
}

/// A row scaled to length one.
pub fn unit_row<T: Scalar>(row: &[T]) -> (r: Vec<T>)
    ensures
        r@ == unit(row@),
{
    let len = norm(row);
    if !T::zero().below(len) {
        return copy_all(row);
    }
    let ghost goal = row@.map_values(|v: T| v.over_spec(len));
    let mut out: Vec<T> = Vec::with_capacity(row.len());
    for i in 0..row.len()
        invariant
            goal == row@.map_values(|v: T| v.over_spec(len)),
            out@ == goal.take(i as int),
    {
        out.push(row[i].over(len));
        assert(out@ =~= goal.take(i + 1));
    }
    assert(out@ =~= goal);
    assert(goal =~= unit(row@));
    out
}

proof fn lemma_best_range<T: Scalar>(s: Seq<T>, n: nat)
    ensures
        0 <= best_upto(s, n).0,
        n > 0 ==> best_upto(s, n).0 < n,
    decreases n,
{
    if n > 0 {
        lemma_best_range(s, (n - 1) as nat);
    }
}

/// The centroid that a point belongs to.
fn find_center<T: Scalar>(p: &[T], centers: &Vec<Vec<T>>) -> (r: usize)
    ensures
        r == best_center(p@, row_seqs(centers@)),
        centers@.len() > 0 ==> r < centers@.len(),
{
    let ghost s = matches_with(p@, row_seqs(centers@));
    let mut best: usize = 0;
    let mut best_s = T::lowest();
    for c in 0..centers.len()
        invariant
            s == matches_with(p@, row_seqs(centers@)),
            (best as int, best_s) == best_upto(s, c as nat),
    {
        let score = dot(p, &centers[c]);
        if best_s.below(score) {
            best_s = score;
            best = c;
        }
    }
    proof {
        lemma_best_range(s, centers@.len());
    }
    best
}

/// The centroid that each point belongs to.
fn assign_all<T: Scalar>(points: &Vec<Vec<T>>, centers: &Vec<Vec<T>>) -> (r: Vec<usize>)
    ensures
        r@.len() == points@.len(),
        as_ints(r@) == best_centers(row_seqs(points@), row_seqs(centers@)),
        centers@.len() > 0 ==> forall|i: int|
            0 <= i < r@.len() ==> (#[trigger] r@[i]) < centers@.len(),
{
    let ghost goal = best_centers(row_seqs(points@), row_seqs(centers@));
    let mut out: Vec<usize> = Vec::with_capacity(points.len());
    for i in 0..points.len()
        invariant
            goal == best_centers(row_seqs(points@), row_seqs(centers@)),
            out@.len() == i,
            as_ints(out@) == goal.take(i as int),
            centers@.len() > 0 ==> forall|j: int| 0 <= j < i ==> (#[trigger] out@[j]) < centers@.len(),
    {
        let ghost before = out@;
        let c: usize = find_center(&points[i], centers);
        out.push(c);
        assert(as_ints(out@) =~= as_ints(before).push(c as int));
        assert(as_ints(out@) =~= goal.take(i + 1));
    }
    assert(as_ints(out@) =~= goal);
    out
}

/// The sum of the points that are assigned to `c`, and how many they are.
fn sum_members<T: Scalar>(points: &Vec<Vec<T>>, assignment: &Vec<usize>, c: usize, dim: usize) -> (r: (
    Vec<T>,
    usize,
))
    requires
        rows_have_dim(row_seqs(points@), dim as nat),
        assignment@.len() == points@.len(),
    ensures
        r.0@ == Seq::new(
            dim as nat,
            |j: int|
                member_sum(row_seqs(points@), as_ints(assignment@), c as int, j, points@.len()),
        ),
        r.1 == members_upto(as_ints(assignment@), c as int, points@.len()),
{
    let ghost ps = row_seqs(points@);
    let ghost asg = as_ints(assignment@);
    let mut sums: Vec<T> = filled(dim, T::zero());
    let mut count: usize = 0;
    for i in 0..points.len()
        invariant
            ps == row_seqs(points@),
            asg == as_ints(assignment@),
            rows_have_dim(ps, dim as nat),
            assignment@.len() == points@.len(),
            sums@.len() == dim,
            forall|j: int|
                0 <= j < dim ==> #[trigger] sums@[j] == member_sum(ps, asg, c as int, j, i as nat),
            count == members_upto(asg, c as int, i as nat),
            count <= i,
    {
        assert(asg[i as int] == assignment@[i as int]);
        if assignment[i] == c {
            let p = &points[i];
            assert(ps[i as int] == p@);
            let ghost start = sums@;
            for j in 0..dim
                invariant
                    p@.len() == dim,
                    sums@.len() == dim,
                    start.len() == dim,
                    forall|q: int| 0 <= q < j ==> #[trigger] sums@[q] == start[q].plus_spec(p@[q]),
                    forall|q: int| j <= q < dim ==> #[trigger] sums@[q] == start[q],
            {
                sums[j] = sums[j].plus(p[j]);
            }
            count = count + 1;
            assert forall|j: int| 0 <= j < dim implies #[trigger] sums@[j] == member_sum(
                ps,
                asg,
                c as int,
                j,
                (i + 1) as nat,
            ) by {
                assert(start[j] == member_sum(ps, asg, c as int, j, i as nat));
            }
        }
    }
    assert(sums@ =~= Seq::new(
        dim as nat,
        |j: int| member_sum(ps, asg, c as int, j, points@.len()),
    ));
    (sums, count)
}

/// The centroids of an assignment.
fn update_directions<T: Scalar>(
    points: &Vec<Vec<T>>,
    assignment: &Vec<usize>,
    centers: &Vec<Vec<T>>,
    dim: usize,
) -> (r: Vec<Vec<T>>)
    requires
        rows_have_dim(row_seqs(points@), dim as nat),
        assignment@.len() == points@.len(),
    ensures
        row_seqs(r@) == directions(
            row_seqs(points@),
            as_ints(assignment@),
            row_seqs(centers@),
            dim as nat,
        ),
{
    let ghost ps = row_seqs(points@);
    let ghost asg = as_ints(assignment@);
    let ghost goal = directions(ps, asg, row_seqs(centers@), dim as nat);
    let mut out: Vec<Vec<T>> = Vec::with_capacity(centers.len());
    for c in 0..centers.len()
        invariant
            ps == row_seqs(points@),
            asg == as_ints(assignment@),
            rows_have_dim(ps, dim as nat),
            assignment@.len() == points@.len(),
            goal == directions(ps, asg, row_seqs(centers@), dim as nat),
            row_seqs(out@) == goal.take(c as int),
    {
        let ghost before = out@;
        let (sums, count) = sum_members(points, assignment, c, dim);
        let row = if count == 0 {
            copy_all(&centers[c])
        } else {
            unit_row(&sums)
        };
        assert(row@ == goal[c as int]);
        out.push(row);
        assert(row_seqs(out@) =~= row_seqs(before).push(row@));
        assert(row_seqs(out@) =~= goal.take(c + 1));
    }
    assert(row_seqs(out@) =~= goal);
    out
}

proof fn lemma_directions_dim<T: Scalar>(
    points: Seq<Seq<T>>,
    assignment: Seq<int>,
    centers: Seq<Seq<T>>,
    dim: nat,
)
    requires
        rows_have_dim(centers, dim),
    ensures
        directions(points, assignment, centers, dim).len() == centers.len(),
        rows_have_dim(directions(points, assignment, centers, dim), dim),
{
    let m = directions(points, assignment, centers, dim);
    assert forall|i: int| 0 <= i < m.len() implies (#[trigger] m[i]).len() == dim by {
        assert(centers[i].len() == dim);
    }
}

/// The number of clusters.
fn count_experts(rows: usize, cols: usize, configured: usize) -> (r: usize)
    ensures
        r == expert_count(rows as nat, cols as nat, configured as nat),
{
    let wanted: usize = if configured > 0 {
        configured
    } else {
        let per_expert: usize = if cols == 0 {
            MICRO_EXPERT_TARGET_BYTES
        } else if cols > MICRO_EXPERT_TARGET_BYTES / 4 {
            1
        } else {
            assert(MICRO_EXPERT_TARGET_BYTES as int / (4 * cols as int) >= 1) by (nonlinear_arith)
                requires
                    0 < 4 * cols as int <= MICRO_EXPERT_TARGET_BYTES as int,
            ;
            MICRO_EXPERT_TARGET_BYTES / (4 * cols)
        };
        if rows == 0 {
            assert((0 + per_expert - 1) / (per_expert as int) == 0) by (nonlinear_arith)
                requires
                    per_expert >= 1,
            ;
            0
        } else {
            let q: usize = (rows - 1) / per_expert;
            proof {
                assert(derived_experts(rows as int, cols as int) == (rows + per_expert - 1) / (
                per_expert as int));
                assert((rows + per_expert - 1) / (per_expert as int) == (rows - 1) / (
                per_expert as int) + 1) by (nonlinear_arith)
                    requires
                        per_expert >= 1,
                        rows >= 1,
                ;
                assert(q <= rows - 1) by (nonlinear_arith)
                    requires
                        q == (rows - 1) / (per_expert as int),
                        per_expert >= 1,
                        rows >= 1,
                ;
            }
            q + 1
        }
    };
    if rows < wanted {
        rows
    } else if wanted == 0 {
        1
    } else {
        wanted
    }
}

/// Whether the members of each cluster are exactly the rows that are assigned to it,
/// in ascending order.
pub open spec fn members_match(members: Seq<Vec<usize>>, assignment: Seq<int>) -> bool {
    forall|c: int|
        0 <= c < members.len() ==> {
            let m = #[trigger] members[c]@;
            &&& m.len() == members_upto(assignment, c, assignment.len())
            &&& forall|i: int, j: int| 0 <= i < j < m.len() ==> m[i] < m[j]
            &&& forall|i: int| 0 <= i < m.len() ==> (#[trigger] m[i]) < assignment.len()
                && assignment[m[i] as int] == c
            &&& forall|r: int|
                0 <= r < assignment.len() && assignment[r] == c ==> #[trigger] m.contains(
                    r as usize,
                )
        }
}

/// The rows that are assigned to `c`, ascending.
fn members_of(assignment: &Vec<usize>, c: usize) -> (r: Vec<usize>)
    ensures
        r@.len() == members_upto(as_ints(assignment@), c as int, assignment@.len()),
        forall|i: int, j: int| 0 <= i < j < r@.len() ==> r@[i] < r@[j],
        forall|i: int| 0 <= i < r@.len() ==> (#[trigger] r@[i]) < assignment@.len()
            && assignment@[r@[i] as int] == c,
        forall|v: int|
            0 <= v < assignment@.len() && assignment@[v] == c ==> #[trigger] r@.contains(v as usize),
{
    let mut out: Vec<usize> = Vec::new();
    let ghost asg = as_ints(assignment@);
    for k in 0..assignment.len()
        invariant
            asg == as_ints(assignment@),
            out@.len() == members_upto(asg, c as int, k as nat),
            forall|i: int, j: int| 0 <= i < j < out@.len() ==> out@[i] < out@[j],
            forall|i: int| 0 <= i < out@.len() ==> (#[trigger] out@[i]) < k
                && assignment@[out@[i] as int] == c,
            forall|v: int|
                0 <= v < k && assignment@[v] == c ==> #[trigger] out@.contains(v as usize),
    {
        let ghost before = out@;
        assert(asg[k as int] == assignment@[k as int]);
        if assignment[k] == c {
            out.push(k);
            assert(out@[before.len() as int] == k);
            assert forall|v: int| 0 <= v < k + 1 && assignment@[v] == c implies #[trigger] out@.contains(
                v as usize,
            ) by {
                if v < k {
                    assert(before.contains(v as usize));
                    let j = choose|j: int| 0 <= j < before.len() && before[j] == v as usize;
                    assert(out@[j] == v as usize);
                }
            }
        }
    }
    out
}

/// The cluster of each row as a number.
pub open spec fn assigned_clusters<T>(res: ClusterResult<T>) -> Seq<int> {
    res.assignment@.map_values(|v: u32| v as int)
}

/// Whether `res` is the clustering of the rows of `w`: every row is in the cluster with
/// whose centroid it has the highest inner product, and the members of each cluster are
/// the rows that are in it.
pub open spec fn is_clustering<T: Scalar>(
    w: Matrix<T>,
    cfg: ClusterConfig,
    res: ClusterResult<T>,
) -> bool {
    &&& res.centroids.wf()
    &&& res.centroids.cols == w.cols
    &&& res.members@.len() == res.centroids.rows
    &&& res.assignment@.len() == w.rows
    &&& members_match(res.members@, assigned_clusters(res))
    &&& forall|i: int| 0 <= i < w.rows ==> (#[trigger] res.assignment@[i]) < res.members@.len()
    &&& res.members@.len() == if w.rows == 0 {
        0
    } else {
        expert_count(w.rows as nat, w.cols as nat, cfg.num_experts as nat)
    }
    &&& w.rows > 0 ==> {
        let centers = cluster_centers(w, cfg);
        &&& centers.len() == res.members@.len()
        &&& forall|c: int|
            0 <= c < centers.len() ==> #[trigger] res.centroids.row_seq(c) == centers[c]
        &&& assigned_clusters(res) == best_centers(unit_rows(w), centers)
    }
}

/// Groups the rows of `weights` into clusters. A matrix without rows has none.
pub fn cluster<T: Scalar>(weights: &Matrix<T>, cfg: &ClusterConfig) -> (r: NseResult<ClusterResult<T>>)
    requires
        weights.wf(),
        weights.rows <= u32::MAX,
    ensures
        r matches Ok(res) && is_clustering(*weights, *cfg, res),
{
    let n: usize = weights.rows;
    let dim: usize = weights.cols;
    if n == 0 {
        let res = ClusterResult {
            assignment: Vec::new(),
            members: Vec::new(),
            centroids: Matrix { rows: 0, cols: dim, data: Vec::new() },
        };
        assert(0 * dim == 0) by (nonlinear_arith);
        return Ok(res);
    }
    let ghost w = *weights;
    let ghost ps = unit_rows(w);
    let mut points: Vec<Vec<T>> = Vec::with_capacity(n);
    for r in 0..n
        invariant
            weights.wf(),
            w == *weights,
            n == weights.rows,
            dim == weights.cols,
            ps == unit_rows(w),
            row_seqs(points@) == ps.take(r as int),
    {
        proof {
            lemma_row_index(n as int, dim as int, r as int);
            assert(weights.data.len() == weights.data@.len());
        }
        let ghost before = points@;
        let row = slice_subrange(weights.data.as_slice(), r * dim, (r + 1) * dim);
        let u = unit_row(row);
        points.push(u);
        assert(row_seqs(points@) =~= row_seqs(before).push(u@));
        assert(row_seqs(points@) =~= ps.take(r + 1));
    }
    assert(row_seqs(points@) =~= ps);
    assert(points@.len() == row_seqs(points@).len());
    proof {
        assert forall|i: int| 0 <= i < ps.len() implies (#[trigger] ps[i]).len() == dim by {
            lemma_row_index(n as int, dim as int, i);
        }
    }
    let k: usize = count_experts(n, dim, cfg.num_experts);
    assert(1 <= k <= n);
    let order = shuffled(n, cfg.seed);
    proof {
        law_shuffled_is_permutation(n as nat, cfg.seed);
    }
    let ghost init = initial_centers(ps, k as nat, cfg.seed);
    let mut centers: Vec<Vec<T>> = Vec::with_capacity(k);
    for c in 0..k
        invariant
            k <= n,
            n == points@.len(),
            ps == row_seqs(points@),
            order@ == shuffled_spec(n as nat, cfg.seed),
            order@.len() == n,
            forall|i: int| 0 <= i < n ==> (#[trigger] order@[i]) < n,
            init == initial_centers(ps, k as nat, cfg.seed),
            row_seqs(centers@) == init.take(c as int),
    {
        let ghost prev = centers@;
        let at: usize = order[c];
        let row = copy_all(&points[at]);
        centers.push(row);
        assert(row@ == ps[at as int]);
        assert(row_seqs(centers@) =~= row_seqs(prev).push(row@));
        assert(row_seqs(centers@) =~= init.take(c + 1));
    }
    assert(row_seqs(centers@) =~= init);
    assert(centers@.len() == row_seqs(centers@).len());
    let mut assignment: Vec<usize> = filled(n, 0usize);
    let ghost goal = cluster_centers(w, *cfg);
    proof {
        assert(as_ints(assignment@) =~= Seq::new(ps.len(), |i: int| 0int));
        assert forall|i: int| 0 <= i < init.len() implies (#[trigger] init[i]).len() == dim by {
            assert(ps[shuffled_spec(n as nat, cfg.seed)[i] as int].len() == dim);
        }
    }
    let mut left: usize = cfg.iters;
    while left > 0
        invariant
            n == points@.len(),
            0 < k,
            ps == row_seqs(points@),
            rows_have_dim(ps, dim as nat),
            assignment@.len() == n,
            centers@.len() == k,
            rows_have_dim(row_seqs(centers@), dim as nat),
            goal == spherical(
                ps,
                row_seqs(centers@),
                as_ints(assignment@),
                dim as nat,
                left as nat,
            ),
        decreases left,
    {
        let ghost before = as_ints(assignment@);
        let next = assign_all(&points, &centers);
        let ghost target = best_centers(ps, row_seqs(centers@));
        let changed: bool = !same_usizes(&assignment, &next);
        assert(as_ints(next@) == target);
        proof {
            if !changed {
                assert(target =~= before);
            } else {
                if target == before {
                    assert forall|i: int| 0 <= i < n implies assignment@[i] == next@[i] by {
                        assert(before[i] == target[i]);
                    }
                    assert(assignment@ =~= next@);
                }
            }
            lemma_directions_dim(ps, target, row_seqs(centers@), dim as nat);
        }
        assignment = next;
        centers = update_directions(&points, &assignment, &centers, dim);
        assert(centers@.len() == row_seqs(centers@).len());
        if !changed {
            assert(row_seqs(centers@) == goal);
            left = 0;
        } else {
            left = left - 1;
        }
    }
    assert(row_seqs(centers@) == goal);
    let last = assign_all(&points, &centers);
    let mut members: Vec<Vec<usize>> = Vec::with_capacity(k);
    for c in 0..k
        invariant
            members@.len() == c,
            members_match(members@, as_ints(last@)),
    {
        let ghost before = members@;
        let m = members_of(&last, c);
        members.push(m);
        assert forall|e: int| 0 <= e < members@.len() implies {
            let q = #[trigger] members@[e]@;
            &&& q.len() == members_upto(as_ints(last@), e, as_ints(last@).len())
            &&& forall|i: int, j: int| 0 <= i < j < q.len() ==> q[i] < q[j]
            &&& forall|i: int| 0 <= i < q.len() ==> (#[trigger] q[i]) < as_ints(last@).len()
                && as_ints(last@)[q[i] as int] == e
            &&& forall|r: int|
                0 <= r < as_ints(last@).len() && as_ints(last@)[r] == e ==> #[trigger] q.contains(
                    r as usize,
                )
        } by {
            if e < before.len() {
                assert(members@[e] == before[e]);
            } else {
                assert(members@[e] == m);
            }
        }
    }
    let mut assignment32: Vec<u32> = Vec::with_capacity(n);
    for i in 0..n
        invariant
            last@.len() == n,
            0 < k <= n <= u32::MAX,
            forall|j: int| 0 <= j < n ==> (#[trigger] last@[j]) < k,
            assignment32@.len() == i,
            forall|j: int| 0 <= j < i ==> #[trigger] assignment32@[j] == last@[j],
    {
        assert(last@[i as int] < k);
        assignment32.push(last[i] as u32);
    }
    assert(assignment32@.map_values(|v: u32| v as int) =~= as_ints(last@));
    let centroids = stack_rows(&centers, dim);
    Ok(ClusterResult { assignment: assignment32, members, centroids })
}

/// Whether two lists are equal.
fn same_usizes(a: &Vec<usize>, b: &Vec<usize>) -> (r: bool)
    ensures
        r == (a@ == b@),
{
    if a.len() != b.len() {
        return false;
    }
    for i in 0..a.len()
        invariant
            a@.len() == b@.len(),
            forall|j: int| 0 <= j < i ==> a@[j] == b@[j],
    {
        if a[i] != b[i] {
            return false;
        }
    }
    assert(a@ =~= b@);
    true
}

/// The matrix with the given rows.
pub fn stack_rows<T: Scalar>(rows: &Vec<Vec<T>>, cols: usize) -> (m: Matrix<T>)
    requires
        rows_have_dim(row_seqs(rows@), cols as nat),
    ensures
        m.wf(),
        m.rows == rows@.len(),
        m.cols == cols,
        forall|r: int| 0 <= r < rows@.len() ==> #[trigger] m.row_seq(r) == rows@[r]@,
{
    let mut data: Vec<T> = Vec::new();
    assert(0 * cols == 0) by (nonlinear_arith);
    for i in 0..rows.len()
        invariant
            rows_have_dim(row_seqs(rows@), cols as nat),
            data@.len() == i * cols,
            forall|r: int| 0 <= r < i ==> #[trigger] row_of(data@, cols as int, r) == rows@[r]@,
    {
        let ghost before = data@;
        let mut piece = copy_all(&rows[i]);
        assert(row_seqs(rows@)[i as int].len() == cols);
        data.append(&mut piece);
        assert((i + 1) * cols == i * cols + cols) by (nonlinear_arith);
        assert forall|r: int| 0 <= r < i + 1 implies #[trigger] row_of(data@, cols as int, r)
            == rows@[r]@ by {
            if r < i {
                lemma_row_index(i as int, cols as int, r);
                assert(row_of(data@, cols as int, r) =~= row_of(before, cols as int, r));
            } else {
                assert(row_of(data@, cols as int, r) =~= rows@[r]@);
            }
        }
    }
    let m = Matrix { rows: rows.len(), cols, data };
    assert forall|r: int| 0 <= r < rows@.len() implies #[trigger] m.row_seq(r) == rows@[r]@ by {
        assert(row_of(data@, cols as int, r) == rows@[r]@);
    }
    m
}

} // verus!
