//! Product quantisation.
//!
//! A row is cut into sub-vectors of equal length, and each sub-vector is replaced
//! by the index of the nearest entry in its own codebook. The entries are learned
//! by k-means on the sub-vectors of the training rows.

use vstd::prelude::*;
use vstd::arithmetic::power2::pow2;
use vstd::slice::slice_subrange;
use crate::kernel::{decoded, lemma_decoded_at};
use crate::rng::{law_shuffled_is_permutation, shuffled, shuffled_spec};
use crate::scalar::{comparable, squared_dist, squared_dist_spec, Scalar};
use crate::sparse::{lemma_entry_bounds, power_of_two, PqCodebook};
use crate::tensor::{copy_all, copy_range, filled, lemma_cell_index, lemma_row_index, row_of};

verus! {

/// The place of the least of the first `n` distances, and that distance: the first
/// place, where several are least. A distance that is not below the highest number
/// is never chosen; where there is no other, the place is 0.
pub open spec fn nearest_upto<T: Scalar>(d: Seq<T>, n: nat) -> (int, T)
    decreases n,
{
    if n == 0 {
        (0, T::spec_highest())
    } else {
        let best = nearest_upto(d, (n - 1) as nat);
        if d[n - 1].below_spec(best.1) {
            (n - 1, d[n - 1])
        } else {
            best
        }
    }
}

/// The place of the least distance.
pub open spec fn nearest<T: Scalar>(d: Seq<T>) -> int {
    nearest_upto(d, d.len()).0
}

pub proof fn lemma_nearest_range<T: Scalar>(d: Seq<T>, n: nat)
    ensures
        0 <= nearest_upto(d, n).0,
        n > 0 ==> nearest_upto(d, n).0 < n,
    decreases n,
{
    if n > 0 {
        lemma_nearest_range(d, (n - 1) as nat);
    }
}

proof fn lemma_nearest_upto<T: Scalar>(d: Seq<T>, n: nat)
    requires
        0 < n <= d.len(),
        comparable(d),
        forall|i: int| 0 <= i < d.len() ==> (#[trigger] d[i]).below_spec(T::spec_highest()),
    ensures
        ({
            let b = nearest_upto(d, n);
            &&& 0 <= b.0 < n
            &&& b.1 == d[b.0]
            &&& forall|i: int| 0 <= i < n ==> !(#[trigger] d[i]).below_spec(d[b.0])
            &&& forall|i: int| 0 <= i < b.0 ==> d[b.0].below_spec(#[trigger] d[i])
        }),
    decreases n,
{
    let b = nearest_upto(d, n);
    d[n - 1].below_irreflexive();
    if n > 1 {
        lemma_nearest_upto(d, (n - 1) as nat);
        let p = nearest_upto(d, (n - 1) as nat);
        if d[n - 1].below_spec(p.1) {
            assert forall|i: int| 0 <= i < n implies !(#[trigger] d[i]).below_spec(d[n - 1]) by {
                if i < n - 1 && d[i].below_spec(d[n - 1]) {
                    d[i].below_transitive(d[n - 1], d[p.0]);
                }
            }
            assert forall|i: int| 0 <= i < n - 1 implies d[n - 1].below_spec(#[trigger] d[i]) by {
                assert(d[n - 1].below_spec(d[p.0]));
                assert(!d[i].below_spec(d[p.0]));
            }
        }
    } else {
        assert(nearest_upto(d, 0) == (0int, T::spec_highest()));
        assert(d[0].below_spec(T::spec_highest()));
    }
}

/// No distance is less than the chosen one, and every distance in front of it is
/// more.
pub proof fn law_nearest_is_least<T: Scalar>(d: Seq<T>)
    requires
        d.len() > 0,
        comparable(d),
        forall|i: int| 0 <= i < d.len() ==> (#[trigger] d[i]).below_spec(T::spec_highest()),
    ensures
        0 <= nearest(d) < d.len(),
        forall|i: int| 0 <= i < d.len() ==> !(#[trigger] d[i]).below_spec(d[nearest(d)]),
        forall|i: int| 0 <= i < nearest(d) ==> d[nearest(d)].below_spec(#[trigger] d[i]),
{
    lemma_nearest_upto(d, d.len());
}

/// The distances of sub-vector `m` of a row to the entries of its codebook.
pub open spec fn entry_dists<T: Scalar>(row: Seq<T>, cb: PqCodebook<T>, m: int) -> Seq<T> {
    Seq::new(
        cb.entries(),
        |c: int| squared_dist_spec(row_of(row, cb.sub_dim as int, m), cb.entry(m, c)),
    )
}

/// The codes of a row.
pub open spec fn encoded<T: Scalar>(row: Seq<T>, cb: PqCodebook<T>) -> Seq<u8> {
    Seq::new(cb.num_sub_vectors as nat, |m: int| nearest(entry_dists(row, cb, m)) as u8)
}

/// Entry `c` of sub-vector `m`.
pub fn entry_slice<T: Scalar>(cb: &PqCodebook<T>, n_entries: usize, m: usize, c: usize) -> (r: &[T])
    requires
        cb.wf(),
        n_entries == cb.entries(),
        m < cb.num_sub_vectors,
        c < n_entries,
    ensures
        r@ == cb.entry(m as int, c as int),
        r@.len() == cb.sub_dim,
{
    proof {
        lemma_entry_bounds(*cb, m as int, c as int);
        assert(cb.codebook.len() == cb.codebook@.len());
        assert(0 <= m * n_entries) by (nonlinear_arith);
    }
    let start: usize = (m * n_entries + c) * cb.sub_dim;
    slice_subrange(cb.codebook.as_slice(), start, start + cb.sub_dim)
}

/// The codes of a row: for each sub-vector the index of the nearest entry. Codes
/// have eight bits; of a higher index the lower eight bits stay.
pub fn encode_pq<T: Scalar>(row: &[T], codebook: &PqCodebook<T>) -> (r: Vec<u8>)
    requires
        codebook.wf(),
        row@.len() == codebook.num_sub_vectors * codebook.sub_dim,
    ensures
        r@ == encoded(row@, *codebook),
{
    let m: usize = codebook.num_sub_vectors;
    let sub_dim: usize = codebook.sub_dim;
    let n_entries: usize = codebook.num_entries();
    let mut codes: Vec<u8> = Vec::with_capacity(m);
    for sm in 0..m
        invariant
            codebook.wf(),
            m == codebook.num_sub_vectors,
            sub_dim == codebook.sub_dim,
            n_entries == codebook.entries(),
            row@.len() == m * sub_dim,
            codes@ == encoded(row@, *codebook).take(sm as int),
    {
        proof {
            lemma_row_index(m as int, sub_dim as int, sm as int);
            assert(row.len() == row@.len());
        }
        let sub = slice_subrange(row, sm * sub_dim, (sm + 1) * sub_dim);
        let ghost d = entry_dists(row@, *codebook, sm as int);
        let mut best: usize = 0;
        let mut best_d = T::highest();
        for c in 0..n_entries
            invariant
                codebook.wf(),
                sm < m,
                m == codebook.num_sub_vectors,
                sub_dim == codebook.sub_dim,
                n_entries == codebook.entries(),
                sub@ == row_of(row@, sub_dim as int, sm as int),
                d == entry_dists(row@, *codebook, sm as int),
                (best as int, best_d) == nearest_upto(d, c as nat),
        {
            let cent = entry_slice(codebook, n_entries, sm, c);
            let dist = squared_dist(sub, cent);
            if dist.below(best_d) {
                best_d = dist;
                best = c;
            }
        }
        #[verifier::truncate]
        let code: u8 = best as u8;
        codes.push(code);
        assert(codes@ =~= encoded(row@, *codebook).take(sm + 1));
    }
    assert(codes@ =~= encoded(row@, *codebook));
    codes
}

/// The row that codes stand for: their entries, one behind the other.
pub fn decode_pq<T: Scalar>(codes: &[u8], codebook: &PqCodebook<T>) -> (r: Vec<T>)
    requires
        codebook.wf(),
        codebook.num_sub_vectors <= codes@.len(),
    ensures
        r@ == decoded(codes@, *codebook),
{
    let m: usize = codebook.num_sub_vectors;
    let sub_dim: usize = codebook.sub_dim;
    let n_entries: usize = codebook.num_entries();
    let ghost goal = decoded(codes@, *codebook);
    let mut out: Vec<T> = Vec::with_capacity(m * sub_dim);
    assert(0 * sub_dim == 0) by (nonlinear_arith);
    for sm in 0..m
        invariant
            codebook.wf(),
            m == codebook.num_sub_vectors,
            sub_dim == codebook.sub_dim,
            n_entries == codebook.entries(),
            n_entries >= 1,
            m <= codes@.len(),
            goal == decoded(codes@, *codebook),
            out@.len() == sm * sub_dim,
            out@.len() <= goal.len(),
            forall|k: int| 0 <= k < out@.len() ==> out@[k] == goal[k],
    {
        let code: usize = codes[sm] as usize;
        let c: usize = if code < n_entries {
            code
        } else {
            n_entries - 1
        };
        let cent = entry_slice(codebook, n_entries, sm, c);
        let ghost before = out@;
        let mut piece = copy_all(cent);
        out.append(&mut piece);
        proof {
            lemma_row_index(m as int, sub_dim as int, sm as int);
            assert forall|k: int| 0 <= k < out@.len() implies out@[k] == goal[k] by {
                if k >= before.len() {
                    let j = k - before.len();
                    lemma_decoded_at(codes@, *codebook, sm as int, j);
                    assert(out@[k] == cent@[j]);
                }
            }
        }
    }
    assert(out@ =~= goal);
    out
}

/// The weights that a row's codes and scale stand for.
pub fn reconstruct_pq_row<T: Scalar>(codes: &[u8], codebook: &PqCodebook<T>, scale: T) -> (r: Vec<T>)
    requires
        codebook.wf(),
        codebook.num_sub_vectors <= codes@.len(),
    ensures
        r@ == decoded(codes@, *codebook).map_values(|v: T| scale.times_spec(v)),
{
    let row = decode_pq(codes, codebook);
    let ghost goal = row@.map_values(|v: T| scale.times_spec(v));
    let mut out: Vec<T> = Vec::with_capacity(row.len());
    for i in 0..row.len()
        invariant
            goal == row@.map_values(|v: T| scale.times_spec(v)),
            out@ == goal.take(i as int),
    {
        out.push(scale.times(row[i]));
        assert(out@ =~= goal.take(i + 1));
    }
    assert(out@ =~= goal);
    out
}

/// Encoding a row and decoding the codes replaces each sub-vector by its nearest
/// entry, if a code can hold every index.
pub proof fn law_decode_encoded<T: Scalar>(row: Seq<T>, cb: PqCodebook<T>, m: int, j: int)
    requires
        cb.wf(),
        cb.entries() <= 256,
        0 <= m < cb.num_sub_vectors,
        0 <= j < cb.sub_dim,
    ensures
        decoded(encoded(row, cb), cb)[m * cb.sub_dim + j] == cb.entry(
            m,
            nearest(entry_dists(row, cb, m)),
        )[j],
{
    vstd::arithmetic::power2::lemma_pow2_pos(cb.nbits as nat);
    let d = entry_dists(row, cb, m);
    lemma_nearest_range(d, d.len());
    lemma_decoded_at(encoded(row, cb), cb, m, j);
    assert(encoded(row, cb)[m] == nearest(d) as u8);
}

/// Rows as sequences.
pub open spec fn row_seqs<T>(rows: Seq<Vec<T>>) -> Seq<Seq<T>> {
    rows.map_values(|v: Vec<T>| v@)
}

/// The distances of a point to the centroids.
pub open spec fn center_dists<T: Scalar>(p: Seq<T>, centers: Seq<Seq<T>>) -> Seq<T> {
    Seq::new(centers.len(), |i: int| squared_dist_spec(p, centers[i]))
}

/// The index of the nearest centroid.
pub fn nearest_l2<T: Scalar>(p: &[T], centroids: &[Vec<T>]) -> (r: usize)
    ensures
        r == nearest(center_dists(p@, row_seqs(centroids@))),
{
    let ghost d = center_dists(p@, row_seqs(centroids@));
    let mut best: usize = 0;
    let mut best_d = T::highest();
    for i in 0..centroids.len()
        invariant
            d == center_dists(p@, row_seqs(centroids@)),
            (best as int, best_d) == nearest_upto(d, i as nat),
    {
        let dist = squared_dist(p, &centroids[i]);
        if dist.below(best_d) {
            best_d = dist;
            best = i;
        }
    }
    best
}

/// The nearest centroid of each point.
pub open spec fn assigned<T: Scalar>(points: Seq<Seq<T>>, centers: Seq<Seq<T>>) -> Seq<int> {
    points.map_values(|p: Seq<T>| nearest(center_dists(p, centers)))
}

/// How many of the first `n` points are assigned to `c`.
pub open spec fn members_upto(assignment: Seq<int>, c: int, n: nat) -> nat
    decreases n,
{
    if n == 0 {
        0
    } else {
        members_upto(assignment, c, (n - 1) as nat) + if assignment[n - 1] == c {
            1nat
        } else {
            0nat
        }
    }
}

/// The sum of coordinate `j` over those of the first `n` points that are assigned
/// to `c`.
pub open spec fn member_sum<T: Scalar>(
    points: Seq<Seq<T>>,
    assignment: Seq<int>,
    c: int,
    j: int,
    n: nat,
) -> T
    decreases n,
{
    if n == 0 {
        T::spec_zero()
    } else {
        let front = member_sum(points, assignment, c, j, (n - 1) as nat);
        if assignment[n - 1] == c {
            front.plus_spec(points[n - 1][j])
        } else {
            front
        }
    }
}

/// The centroids that an assignment gives: the mean of the members of each, or the
/// centroid as it was where it has none.
pub open spec fn means<T: Scalar>(
    points: Seq<Seq<T>>,
    assignment: Seq<int>,
    centers: Seq<Seq<T>>,
    dim: nat,
) -> Seq<Seq<T>> {
    Seq::new(
        centers.len(),
        |c: int|
            if members_upto(assignment, c, points.len()) == 0 {
                centers[c]
            } else {
                Seq::new(
                    dim,
                    |j: int|
                        member_sum(points, assignment, c, j, points.len()).over_spec(
                            T::spec_count(members_upto(assignment, c, points.len()) as usize),
                        ),
                )
            },
    )
}

/// Assigning and averaging in turn, up to `iters` times or until the assignment
/// stays as it was.
pub open spec fn lloyd<T: Scalar>(
    points: Seq<Seq<T>>,
    centers: Seq<Seq<T>>,
    assignment: Seq<int>,
    dim: nat,
    iters: nat,
) -> Seq<Seq<T>>
    decreases iters,
{
    if iters == 0 {
        centers
    } else {
        let a = assigned(points, centers);
        let c = means(points, a, centers, dim);
        if a == assignment {
            c
        } else {
            lloyd(points, c, a, dim, (iters - 1) as nat)
        }
    }
}

/// The points that k-means starts from: `k` different ones, chosen by the seed.
pub open spec fn initial_centers<T>(points: Seq<Seq<T>>, k: nat, seed: u64) -> Seq<Seq<T>> {
    Seq::new(k, |c: int| points[shuffled_spec(points.len(), seed)[c] as int])
}

/// The number of centroids for `n` points: `k`, but no more than there are points
/// and at least one.
pub open spec fn center_count(n: nat, k: nat) -> nat {
    if n < k {
        n
    } else if k == 0 {
        1
    } else {
        k
    }
}

/// What k-means gives.
pub open spec fn kmeans_spec<T: Scalar>(
    points: Seq<Seq<T>>,
    k: nat,
    dim: nat,
    iters: nat,
    seed: u64,
) -> Seq<Seq<T>> {
    if points.len() == 0 {
        Seq::new(k, |c: int| Seq::new(dim, |j: int| T::spec_zero()))
    } else {
        lloyd(
            points,
            initial_centers(points, center_count(points.len(), k), seed),
            Seq::new(points.len(), |i: int| 0int),
            dim,
            iters,
        )
    }
}

/// Whether every row has `dim` numbers.
pub open spec fn rows_have_dim<T>(rows: Seq<Seq<T>>, dim: nat) -> bool {
    forall|i: int| 0 <= i < rows.len() ==> (#[trigger] rows[i]).len() == dim
}

/// The numbers of an assignment.
pub open spec fn as_ints(s: Seq<usize>) -> Seq<int> {
    s.map_values(|v: usize| v as int)
}

pub proof fn lemma_members_bound(assignment: Seq<int>, c: int, n: nat)
    ensures
        members_upto(assignment, c, n) <= n,
    decreases n,
{
    if n > 0 {
        lemma_members_bound(assignment, c, (n - 1) as nat);
    }
}

/// The centroids of an assignment.
fn update_centers<T: Scalar>(
    points: &[Vec<T>],
    assignment: &Vec<usize>,
    centers: &Vec<Vec<T>>,
    dim: usize,
) -> (r: Vec<Vec<T>>)
    requires
        rows_have_dim(row_seqs(points@), dim as nat),
        assignment@.len() == points@.len(),
        forall|i: int| 0 <= i < assignment@.len() ==> (#[trigger] assignment@[i]) < centers@.len(),
        centers@.len() * dim <= usize::MAX,
    ensures
        row_seqs(r@) == means(
            row_seqs(points@),
            as_ints(assignment@),
            row_seqs(centers@),
            dim as nat,
        ),
{
    let k: usize = centers.len();
    let ghost ps = row_seqs(points@);
    let ghost asg = as_ints(assignment@);
    let mut sums: Vec<T> = filled(k * dim, T::zero());
    let mut counts: Vec<usize> = filled(k, 0usize);
    proof {
        assert forall|c: int, j: int| 0 <= c < k && 0 <= j < dim implies #[trigger] sums@[c * dim
            + j] == member_sum(ps, asg, c, j, 0) by {
            lemma_cell_index(k as int, dim as int, c, j);
        }
    }
    for i in 0..points.len()
        invariant
            ps == row_seqs(points@),
            asg == as_ints(assignment@),
            rows_have_dim(ps, dim as nat),
            assignment@.len() == points@.len(),
            k == centers@.len(),
            forall|q: int| 0 <= q < assignment@.len() ==> (#[trigger] assignment@[q]) < k,
            k * dim <= usize::MAX,
            sums@.len() == k * dim,
            counts@.len() == k,
            forall|c: int| 0 <= c < k ==> #[trigger] counts@[c] == members_upto(asg, c, i as nat),
            forall|c: int, j: int|
                0 <= c < k && 0 <= j < dim ==> #[trigger] sums@[c * dim + j] == member_sum(
                    ps,
                    asg,
                    c,
                    j,
                    i as nat,
                ),
    {
        let c: usize = assignment[i];
        let p = &points[i];
        assert(ps[i as int] == p@);
        assert(asg[i as int] == c);
        proof {
            lemma_row_index(k as int, dim as int, c as int);
        }
        let base: usize = c * dim;
        let ghost start = sums@;
        for j in 0..dim
            invariant
                p@.len() == dim,
                base == c * dim,
                base + dim <= sums@.len(),
                sums@.len() == start.len(),
                start.len() == k * dim,
                forall|q: int|
                    0 <= q < start.len() && !(base <= q < base + j) ==> sums@[q] == start[q],
                forall|q: int|
                    base <= q < base + j ==> #[trigger] sums@[q] == start[q].plus_spec(
                        p@[q - base],
                    ),
        {
            assert(sums.len() == sums@.len());
            let at: usize = base + j;
            sums[at] = sums[at].plus(p[j]);
        }
        proof {
            lemma_members_bound(asg, c as int, i as nat);
        }
        let ghost before = counts@;
        counts[c] = counts[c] + 1;
        assert forall|e: int| 0 <= e < k implies #[trigger] counts@[e] == members_upto(
            asg,
            e,
            (i + 1) as nat,
        ) by {
            assert(before[e] == members_upto(asg, e, i as nat));
        }
        assert forall|e: int, j: int| 0 <= e < k && 0 <= j < dim implies #[trigger] sums@[e * dim
            + j] == member_sum(ps, asg, e, j, (i + 1) as nat) by {
            lemma_cell_index(k as int, dim as int, e, j);
            assert(start[e * dim + j] == member_sum(ps, asg, e, j, i as nat));
            if e == c {
                assert(sums@[base + j] == start[base + j].plus_spec(p@[j]));
            } else {
                if base <= e * dim + j < base + dim {
                    crate::tensor::lemma_cell_unique(
                        dim as int,
                        e,
                        j,
                        c as int,
                        e * dim + j - base,
                    );
                }
            }
        }
    }
    let ghost goal = means(ps, asg, row_seqs(centers@), dim as nat);
    let mut out: Vec<Vec<T>> = Vec::with_capacity(k);
    for c in 0..k
        invariant
            k == centers@.len(),
            k * dim <= usize::MAX,
            sums@.len() == k * dim,
            counts@.len() == k,
            forall|e: int| 0 <= e < k ==> #[trigger] counts@[e] == members_upto(asg, e, ps.len()),
            forall|e: int, j: int|
                0 <= e < k && 0 <= j < dim ==> #[trigger] sums@[e * dim + j] == member_sum(
                    ps,
                    asg,
                    e,
                    j,
                    ps.len(),
                ),
            goal == means(ps, asg, row_seqs(centers@), dim as nat),
            row_seqs(out@) == goal.take(c as int),
    {
        let ghost prev = out@;
        if counts[c] == 0 {
            let keep = copy_all(&centers[c]);
            assert(keep@ == row_seqs(centers@)[c as int]);
            out.push(keep);
        } else {
            let n = T::from_count(counts[c]);
            let mut row: Vec<T> = Vec::with_capacity(dim);
            for j in 0..dim
                invariant
                    c < k,
                    k * dim <= usize::MAX,
                    sums@.len() == k * dim,
                    n == T::spec_count(members_upto(asg, c as int, ps.len()) as usize),
                    members_upto(asg, c as int, ps.len()) != 0,
                    forall|e: int, q: int|
                        0 <= e < k && 0 <= q < dim ==> #[trigger] sums@[e * dim + q] == member_sum(
                            ps,
                            asg,
                            e,
                            q,
                            ps.len(),
                        ),
                    k == centers@.len(),
                    goal == means(ps, asg, row_seqs(centers@), dim as nat),
                    row@.len() == j,
                    forall|q: int| 0 <= q < j ==> row@[q] == goal[c as int][q],
            {
                proof {
                    lemma_cell_index(k as int, dim as int, c as int, j as int);
                    assert(sums.len() == sums@.len());
                }
                row.push(sums[c * dim + j].over(n));
            }
            assert(row@ =~= goal[c as int]);
            out.push(row);
        }
        assert(row_seqs(out@) =~= row_seqs(prev).push(out@[c as int]@));
        assert(row_seqs(out@) =~= goal.take(c + 1));
    }
    assert(row_seqs(out@) =~= goal);
    out
}

proof fn lemma_means_dim<T: Scalar>(
    points: Seq<Seq<T>>,
    assignment: Seq<int>,
    centers: Seq<Seq<T>>,
    dim: nat,
)
    requires
        rows_have_dim(centers, dim),
    ensures
        means(points, assignment, centers, dim).len() == centers.len(),
        rows_have_dim(means(points, assignment, centers, dim), dim),
{
    let m = means(points, assignment, centers, dim);
    assert forall|i: int| 0 <= i < m.len() implies (#[trigger] m[i]).len() == dim by {
        assert(centers[i].len() == dim);
    }
}

/// Plain k-means. The start is chosen by the seed; a centroid without members stays
/// where it is.
pub fn kmeans_l2<T: Scalar>(
    points: &[Vec<T>],
    k: usize,
    dim: usize,
    iters: usize,
    seed: u64,
) -> (r: Vec<Vec<T>>)
    requires
        rows_have_dim(row_seqs(points@), dim as nat),
        center_count(points@.len(), k as nat) * dim <= usize::MAX,
    ensures
        row_seqs(r@) == kmeans_spec(row_seqs(points@), k as nat, dim as nat, iters as nat, seed),
        rows_have_dim(row_seqs(r@), dim as nat),
        r@.len() == if points@.len() == 0 {
            k as nat
        } else {
            center_count(points@.len(), k as nat)
        },
{
    let n: usize = points.len();
    let ghost ps = row_seqs(points@);
    let mut centers: Vec<Vec<T>> = Vec::new();
    if n == 0 {
        for c in 0..k
            invariant
                row_seqs(centers@) == Seq::new(
                    c as nat,
                    |e: int| Seq::new(dim as nat, |j: int| T::spec_zero()),
                ),
        {
            let ghost prev = centers@;
            let row = filled(dim, T::zero());
            centers.push(row);
            assert(row_seqs(centers@) =~= row_seqs(prev).push(row@));
            assert(row_seqs(centers@) =~= Seq::new(
                (c + 1) as nat,
                |e: int| Seq::new(dim as nat, |j: int| T::spec_zero()),
            ));
        }
        assert forall|i: int| 0 <= i < row_seqs(centers@).len() implies (#[trigger] row_seqs(
            centers@,
        )[i]).len() == dim by {}
        return centers;
    }
    let kk: usize = if n < k {
        n
    } else if k == 0 {
        1
    } else {
        k
    };
    let order = shuffled(n, seed);
    proof {
        law_shuffled_is_permutation(n as nat, seed);
    }
    let ghost init = initial_centers(ps, kk as nat, seed);
    for c in 0..kk
        invariant
            kk <= n,
            n == points@.len(),
            ps == row_seqs(points@),
            order@ == shuffled_spec(n as nat, seed),
            order@.len() == n,
            forall|i: int| 0 <= i < n ==> (#[trigger] order@[i]) < n,
            init == initial_centers(ps, kk as nat, seed),
            row_seqs(centers@) == init.take(c as int),
    {
        let ghost prev = centers@;
        let at: usize = order[c];
        let row = copy_all(&points[at]);
        centers.push(row);
        assert(row@ == ps[at as int]);
        assert(row_seqs(centers@) =~= row_seqs(prev).push(row@));
        assert(row_seqs(centers@) =~= init.take(c + 1));
    }
    assert(row_seqs(centers@) =~= init);
    let mut assignment: Vec<usize> = filled(n, 0usize);
    let ghost goal = kmeans_spec(ps, k as nat, dim as nat, iters as nat, seed);
    proof {
        assert(as_ints(assignment@) =~= Seq::new(ps.len(), |i: int| 0int));
        assert forall|i: int| 0 <= i < init.len() implies (#[trigger] init[i]).len() == dim by {
            assert(ps[shuffled_spec(n as nat, seed)[i] as int].len() == dim);
        }
    }
    let mut left: usize = iters;
    while left > 0
        invariant
            0 < n == points@.len(),
            0 < kk == center_count(n as nat, k as nat),
            goal == kmeans_spec(ps, k as nat, dim as nat, iters as nat, seed),
            ps == row_seqs(points@),
            rows_have_dim(ps, dim as nat),
            assignment@.len() == n,
            centers@.len() == kk,
            kk * dim <= usize::MAX,
            rows_have_dim(row_seqs(centers@), dim as nat),
            goal == lloyd(
                ps,
                row_seqs(centers@),
                as_ints(assignment@),
                dim as nat,
                left as nat,
            ),
        decreases left,
    {
        let ghost before = as_ints(assignment@);
        let ghost target = assigned(ps, row_seqs(centers@));
        let mut changed: bool = false;
        for i in 0..n
            invariant
                n == points@.len(),
                0 < kk,
                centers@.len() == kk,
                ps == row_seqs(points@),
                assignment@.len() == n,
                before.len() == n,
                target == assigned(ps, row_seqs(centers@)),
                forall|q: int| 0 <= q < i ==> (#[trigger] assignment@[q]) < kk && assignment@[q]
                    == target[q],
                forall|q: int| i <= q < n ==> assignment@[q] == before[q],
                changed <==> exists|q: int| 0 <= q < i && target[q] != before[q],
        {
            let best: usize = nearest_l2(&points[i], &centers);
            proof {
                let d = center_dists(ps[i as int], row_seqs(centers@));
                lemma_nearest_range(d, d.len());
                assert(best == target[i as int]);
            }
            if assignment[i] != best {
                assignment[i] = best;
                changed = true;
            }
        }
        assert(as_ints(assignment@) =~= target);
        proof {
            if !changed {
                assert forall|q: int| 0 <= q < n implies target[q] == before[q] by {}
                assert(target =~= before);
            }
            lemma_means_dim(ps, target, row_seqs(centers@), dim as nat);
        }
        centers = update_centers(points, &assignment, &centers, dim);
        assert(centers@.len() == row_seqs(centers@).len());
        left = left - 1;
        if !changed {
            assert(row_seqs(centers@) == goal);
            return centers;
        }
    }
    centers
}

/// The sub-vectors number `m` of the rows.
pub open spec fn sub_vectors<T>(rows: Seq<Seq<T>>, sub_dim: int, m: int) -> Seq<Seq<T>> {
    rows.map_values(|r: Seq<T>| row_of(r, sub_dim, m))
}

/// Entry `c` of sub-vector `m` in the codebook that training gives: a centroid of
/// the sub-vectors, or zeros where there are fewer rows than entries.
pub open spec fn trained_entry<T: Scalar>(
    rows: Seq<Seq<T>>,
    sub_dim: nat,
    entries: nat,
    iters: nat,
    seed: u64,
    m: int,
    c: int,
) -> Seq<T> {
    let k = center_count(
        if rows.len() == 0 {
            1
        } else {
            rows.len()
        },
        entries,
    );
    if c < k {
        kmeans_spec(
            sub_vectors(rows, sub_dim as int, m),
            k,
            sub_dim,
            iters,
            seed.wrapping_add(m as u64),
        )[c]
    } else {
        Seq::new(sub_dim, |j: int| T::spec_zero())
    }
}

/// The length of the rows: that of the first one.
pub open spec fn rows_dim<T>(rows: Seq<Seq<T>>) -> nat {
    if rows.len() == 0 {
        0
    } else {
        rows[0].len()
    }
}

/// The number of sub-vectors: at least one.
pub open spec fn at_least_one(m: nat) -> nat {
    if m == 0 {
        1
    } else {
        m
    }
}

/// Learns a codebook from rows of equal length, which the number of sub-vectors
/// divides.
pub fn train_pq<T: Scalar>(
    weights: &[Vec<T>],
    num_sub_vectors: usize,
    nbits: usize,
    iters: usize,
    seed: u64,
) -> (r: PqCodebook<T>)
    requires
        rows_have_dim(row_seqs(weights@), rows_dim(row_seqs(weights@))),
        rows_dim(row_seqs(weights@)) % at_least_one(num_sub_vectors as nat) == 0,
        pow2(nbits as nat) <= usize::MAX,
        at_least_one(num_sub_vectors as nat) * pow2(nbits as nat) <= usize::MAX,
        at_least_one(num_sub_vectors as nat) * pow2(nbits as nat) * (rows_dim(row_seqs(weights@))
            / at_least_one(num_sub_vectors as nat)) <= usize::MAX,
    ensures
        r.wf(),
        r.num_sub_vectors == at_least_one(num_sub_vectors as nat),
        r.nbits == nbits,
        r.sub_dim == rows_dim(row_seqs(weights@)) / at_least_one(num_sub_vectors as nat),
        r.num_sub_vectors * r.sub_dim == rows_dim(row_seqs(weights@)),
        forall|m: int, c: int|
            0 <= m < r.num_sub_vectors && 0 <= c < r.entries() ==> #[trigger] r.entry(m, c)
                == trained_entry(
                row_seqs(weights@),
                r.sub_dim as nat,
                r.entries(),
                iters as nat,
                seed,
                m,
                c,
            ),
{
    let ghost rows = row_seqs(weights@);
    let in_dim: usize = if weights.len() == 0 {
        0
    } else {
        weights[0].len()
    };
    let m: usize = if num_sub_vectors == 0 {
        1
    } else {
        num_sub_vectors
    };
    let sub_dim: usize = in_dim / m;
    let n_entries: usize = power_of_two(nbits);
    let n: usize = weights.len();
    let at_least: usize = if n == 0 {
        1
    } else {
        n
    };
    let k: usize = if at_least < n_entries {
        at_least
    } else {
        n_entries
    };
    assert(in_dim == rows_dim(rows));
    assert(k == center_count(
        if rows.len() == 0 {
            1
        } else {
            rows.len()
        },
        n_entries as nat,
    ));
    assert(m * sub_dim == in_dim) by {
        vstd::arithmetic::div_mod::lemma_fundamental_div_mod(in_dim as int, m as int);
    }
    let mut codebook: Vec<T> = Vec::with_capacity(m * n_entries * sub_dim);
    let zeros = filled(sub_dim, T::zero());
    assert(0 * sub_dim == 0) by (nonlinear_arith);
    assert(0 * n_entries == 0) by (nonlinear_arith);
    for sm in 0..m
        invariant
            rows == row_seqs(weights@),
            rows_have_dim(rows, in_dim as nat),
            n == weights@.len(),
            m * sub_dim == in_dim,
            n_entries == pow2(nbits as nat),
            1 <= k <= n_entries,
            k == center_count(
                if rows.len() == 0 {
                    1
                } else {
                    rows.len()
                },
                n_entries as nat,
            ),
            m * n_entries <= usize::MAX,
            m * n_entries * sub_dim <= usize::MAX,
            zeros@ == Seq::new(sub_dim as nat, |j: int| T::spec_zero()),
            codebook@.len() == (sm * n_entries) * sub_dim,
            forall|a: int, c: int|
                0 <= a < sm && 0 <= c < n_entries ==> row_of(
                    codebook@,
                    sub_dim as int,
                    #[trigger] (a * n_entries + c),
                ) == trained_entry(
                    rows,
                    sub_dim as nat,
                    n_entries as nat,
                    iters as nat,
                    seed,
                    a,
                    c,
                ),
    {
        let mut subs: Vec<Vec<T>> = Vec::with_capacity(n);
        let ghost want = sub_vectors(rows, sub_dim as int, sm as int);
        proof {
            lemma_row_index(m as int, sub_dim as int, sm as int);
        }
        for i in 0..n
            invariant
                n == weights@.len(),
                rows == row_seqs(weights@),
                rows_have_dim(rows, in_dim as nat),
                m * sub_dim == in_dim,
                sm < m,
                (sm + 1) * sub_dim == sm * sub_dim + sub_dim,
                (sm + 1) * sub_dim <= in_dim,
                want == sub_vectors(rows, sub_dim as int, sm as int),
                row_seqs(subs@) == want.take(i as int),
        {
            let ghost prev = subs@;
            assert(rows[i as int] == weights@[i as int]@);
            assert(weights[i as int].len() == weights@[i as int]@.len());
            let piece = copy_range(&weights[i], sm * sub_dim, (sm + 1) * sub_dim);
            subs.push(piece);
            assert(row_seqs(subs@) =~= row_seqs(prev).push(piece@));
            assert(row_seqs(subs@) =~= want.take(i + 1));
        }
        assert(row_seqs(subs@) =~= want);
        proof {
            assert forall|i: int| 0 <= i < want.len() implies (#[trigger] want[i]).len() == sub_dim by {
                assert(rows[i].len() == in_dim);
            }
            lemma_row_index(m as int, n_entries as int, sm as int);
            assert(center_count(n as nat, k as nat) * sub_dim <= (m * n_entries) * sub_dim)
                by (nonlinear_arith)
                requires
                    center_count(n as nat, k as nat) <= m * n_entries,
                    0 <= sub_dim,
            ;
        }
        let cents = kmeans_l2(&subs, k, sub_dim, iters, seed.wrapping_add(sm as u64));
        for c in 0..n_entries
            invariant
                sm < m,
                1 <= k <= n_entries,
                m * n_entries <= usize::MAX,
                m * n_entries * sub_dim <= usize::MAX,
                zeros@ == Seq::new(sub_dim as nat, |j: int| T::spec_zero()),
                k == center_count(
                    if rows.len() == 0 {
                        1
                    } else {
                        rows.len()
                    },
                    n_entries as nat,
                ),
                want == sub_vectors(rows, sub_dim as int, sm as int),
                want.len() == rows.len(),
                cents@.len() == k,
                rows_have_dim(row_seqs(cents@), sub_dim as nat),
                row_seqs(cents@) == kmeans_spec(
                    want,
                    k as nat,
                    sub_dim as nat,
                    iters as nat,
                    seed.wrapping_add(sm as u64),
                ),
                codebook@.len() == (sm * n_entries + c) * sub_dim,
                forall|a: int, e: int|
                    0 <= a <= sm && 0 <= e < n_entries && a * n_entries + e < sm * n_entries + c
                        ==> row_of(codebook@, sub_dim as int, #[trigger] (a * n_entries + e))
                        == trained_entry(
                        rows,
                        sub_dim as nat,
                        n_entries as nat,
                        iters as nat,
                        seed,
                        a,
                        e,
                    ),
        {
            let ghost before = codebook@;
            let ghost t = sm * n_entries + c;
            let ghost entry = trained_entry(
                rows,
                sub_dim as nat,
                n_entries as nat,
                iters as nat,
                seed,
                sm as int,
                c as int,
            );
            let mut piece: Vec<T>;
            if c < k {
                assert(row_seqs(cents@)[c as int] == cents@[c as int]@);
                assert(row_seqs(cents@)[c as int].len() == sub_dim);
                piece = copy_all(&cents[c]);
            } else {
                piece = copy_all(&zeros);
            }
            assert(piece@ == entry);
            codebook.append(&mut piece);
            proof {
                assert((t + 1) * sub_dim == t * sub_dim + sub_dim) by (nonlinear_arith);
                assert forall|a: int, e: int|
                    0 <= a <= sm && 0 <= e < n_entries && a * n_entries + e < sm * n_entries + c
                        + 1 implies row_of(codebook@, sub_dim as int, #[trigger] (a * n_entries
                    + e)) == trained_entry(
                    rows,
                    sub_dim as nat,
                    n_entries as nat,
                    iters as nat,
                    seed,
                    a,
                    e,
                ) by {
                    let u = a * n_entries + e;
                    if u < t {
                        assert(0 <= a * n_entries) by (nonlinear_arith)
                            requires
                                0 <= a,
                                0 <= n_entries,
                        ;
                        lemma_row_index(t, sub_dim as int, u);
                        assert(row_of(codebook@, sub_dim as int, u) =~= row_of(
                            before,
                            sub_dim as int,
                            u,
                        ));
                    } else {
                        crate::tensor::lemma_cell_unique(
                            n_entries as int,
                            a,
                            e,
                            sm as int,
                            c as int,
                        );
                        assert(row_of(codebook@, sub_dim as int, u) =~= entry);
                    }
                }
            }
        }
        assert((sm + 1) * n_entries == sm * n_entries + n_entries) by (nonlinear_arith);
        assert forall|a: int, c: int| 0 <= a < sm + 1 && 0 <= c < n_entries implies row_of(
            codebook@,
            sub_dim as int,
            #[trigger] (a * n_entries + c),
        ) == trained_entry(rows, sub_dim as nat, n_entries as nat, iters as nat, seed, a, c) by {
            lemma_cell_index(sm + 1, n_entries as int, a, c);
        }
    }
    let r = PqCodebook { num_sub_vectors: m, nbits, sub_dim, codebook };
    proof {
        assert forall|a: int, c: int| 0 <= a < r.num_sub_vectors && 0 <= c < r.entries() implies
            #[trigger] r.entry(a, c) == trained_entry(
            rows,
            r.sub_dim as nat,
            r.entries(),
            iters as nat,
            seed,
            a,
            c,
        ) by {
            let u = a * n_entries + c;
            assert((u + 1) * sub_dim == u * sub_dim + sub_dim) by (nonlinear_arith);
            assert(r.entry(a, c) == row_of(codebook@, sub_dim as int, a * n_entries + c));
        }
    }
    r
}

} // verus!
