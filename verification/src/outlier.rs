//! Outlier extraction: splits the rows of a weight matrix into a dense core of the
//! rows with the largest norms and the residual rows.

use vstd::prelude::*;
use vstd::slice::slice_subrange;
use crate::error::NseResult;
use crate::scalar::{comparable, sum_of, Scalar};
use crate::sorting::{in_order, item_before, lemma_listed, lists_range, sorted_order};
use crate::tensor::{lemma_row_index, row_of, Matrix};

verus! {

/// How many rows go to the core.
#[derive(Debug, Clone)]
pub struct OutlierConfig<T> {
    /// The part of the rows that goes to the dense core.
    pub fraction: T,
}

impl<T: Scalar> Default for OutlierConfig<T> {
    /// One row in twenty.
    fn default() -> (r: Self)
        ensures
            r.fraction == T::spec_count(1).over_spec(T::spec_count(20)),
    {
        OutlierConfig { fraction: T::from_count(1).over(T::from_count(20)) }
    }
}

/// The split of a matrix.
#[derive(Debug, Clone)]
pub struct OutlierResult<T> {
    /// The core rows.
    pub dense_core: Matrix<T>,
    /// The rows of the source matrix that are in the core, ascending.
    pub core_row_ids: Vec<u32>,
    /// The other rows.
    pub residual: Matrix<T>,
    /// The rows of the source matrix that are in the residual, ascending.
    pub residual_row_ids: Vec<u32>,
}

/// The squares of a row.
pub open spec fn squares<T: Scalar>(row: Seq<T>) -> Seq<T> {
    row.map_values(|v: T| v.times_spec(v))
}

/// The Euclidean norm of a row.
pub open spec fn norm_spec<T: Scalar>(row: Seq<T>) -> T {
    sum_of(squares(row), row.len()).root_spec()
}

/// The norms of the rows of a matrix.
pub open spec fn row_norms<T: Scalar>(w: Matrix<T>) -> Seq<T> {
    Seq::new(w.rows as nat, |r: int| norm_spec(w.row_seq(r)))
}

/// The number of core rows: the given part of the rows, rounded, but at least one
/// row stays in the residual.
pub open spec fn core_size<T: Scalar>(rows: nat, fraction: T) -> nat {
    let wanted = T::spec_count(rows as usize).times_spec(fraction).rounded_spec() as nat;
    if rows == 0 {
        0
    } else if wanted < rows {
        wanted
    } else {
        (rows - 1) as nat
    }
}

/// Whether `ids` ascend strictly.
pub open spec fn ascending(ids: Seq<u32>) -> bool {
    forall|i: int, j: int| 0 <= i < j < ids.len() ==> #[trigger] ids[i] < #[trigger] ids[j]
}

/// Whether row `i` of `m` is row `ids[i]` of `w`, for all rows.
pub open spec fn has_rows<T>(m: Matrix<T>, w: Matrix<T>, ids: Seq<u32>) -> bool {
    &&& m.wf()
    &&& m.rows == ids.len()
    &&& m.cols == w.cols
    &&& forall|i: int| 0 <= i < ids.len() ==> #[trigger] m.row_seq(i) == w.row_seq(ids[i] as int)
}

/// Whether two lists of rows split the rows below `n`: each row is in one of them
/// and in no more than one.
pub open spec fn splits_rows(a: Seq<u32>, b: Seq<u32>, n: nat) -> bool {
    &&& a.len() + b.len() == n
    &&& forall|i: int| 0 <= i < a.len() ==> (#[trigger] a[i]) < n
    &&& forall|i: int| 0 <= i < b.len() ==> (#[trigger] b[i]) < n
    &&& forall|i: int, j: int|
        0 <= i < a.len() && 0 <= j < b.len() ==> #[trigger] a[i] != #[trigger] b[j]
    &&& forall|r: int| 0 <= r < n ==> #[trigger] a.contains(r as u32) || b.contains(r as u32)
}

/// The Euclidean norm of a row.
pub fn norm<T: Scalar>(row: &[T]) -> (r: T)
    ensures
        r == norm_spec(row@),
{
    let mut acc = T::zero();
    let ghost s = squares(row@);
    for i in 0..row.len()
        invariant
            s == squares(row@),
            acc == sum_of(s, i as nat),
    {
        acc = acc.plus(row[i].times(row[i]));
    }
    acc.root()
}

/// The matrix of the rows `ids` of `w`.
pub fn gather_rows<T: Scalar>(w: &Matrix<T>, ids: &[u32]) -> (m: Matrix<T>)
    requires
        w.wf(),
        ids@.len() * w.cols <= usize::MAX,
        forall|i: int| 0 <= i < ids@.len() ==> (#[trigger] ids@[i]) < w.rows,
    ensures
        has_rows(m, *w, ids@),
{
    let in_dim: usize = w.cols;
    let mut data: Vec<T> = Vec::with_capacity(ids.len() * in_dim);
    assert(0 * in_dim == 0) by (nonlinear_arith);
    for i in 0..ids.len()
        invariant
            w.wf(),
            in_dim == w.cols,
            ids@.len() * w.cols <= usize::MAX,
            forall|j: int| 0 <= j < ids@.len() ==> (#[trigger] ids@[j]) < w.rows,
            data@.len() == i * in_dim,
            forall|j: int|
                0 <= j < i ==> #[trigger] row_of(data@, in_dim as int, j) == w.row_seq(
                    ids@[j] as int,
                ),
    {
        let r: usize = ids[i] as usize;
        proof {
            lemma_row_index(w.rows as int, in_dim as int, r as int);
            assert(w.data.len() == w.data@.len());
        }
        let ghost before = data@;
        let row = slice_subrange(w.data.as_slice(), r * in_dim, (r + 1) * in_dim);
        let mut copy = crate::tensor::copy_all(row);
        data.append(&mut copy);
        assert((i + 1) * in_dim == i * in_dim + in_dim) by (nonlinear_arith);
        assert forall|j: int| 0 <= j < i + 1 implies #[trigger] row_of(data@, in_dim as int, j)
            == w.row_seq(ids@[j] as int) by {
            if j < i {
                lemma_row_index(i as int, in_dim as int, j);
                assert(row_of(data@, in_dim as int, j) =~= row_of(before, in_dim as int, j));
            } else {
                assert(row_of(data@, in_dim as int, j) =~= row@);
            }
        }
    }
    let m = Matrix { rows: ids.len(), cols: in_dim, data };
    assert forall|i: int| 0 <= i < ids@.len() implies #[trigger] m.row_seq(i) == w.row_seq(
        ids@[i] as int,
    ) by {
        assert(row_of(data@, in_dim as int, i) == w.row_seq(ids@[i] as int));
    }
    m
}

/// The numbers below `n` that are marked, or those that are not.
fn marked_rows(marks: &[bool], want: bool) -> (r: Vec<u32>)
    requires
        marks@.len() <= u32::MAX,
    ensures
        ascending(r@),
        forall|i: int| 0 <= i < r@.len() ==> (#[trigger] r@[i]) < marks@.len() && marks@[r@[i] as int]
            == want,
        forall|v: int|
            0 <= v < marks@.len() && marks@[v] == want ==> #[trigger] r@.contains(v as u32),
{
    let mut out: Vec<u32> = Vec::new();
    for k in 0..marks.len()
        invariant
            marks@.len() <= u32::MAX,
            ascending(out@),
            forall|i: int| 0 <= i < out@.len() ==> (#[trigger] out@[i]) < k && marks@[out@[i] as int]
                == want,
            forall|v: int| 0 <= v < k && marks@[v] == want ==> #[trigger] out@.contains(v as u32),
    {
        let ghost before = out@;
        if marks[k] == want {
            out.push(k as u32);
            assert(out@[before.len() as int] == k as u32);
            assert forall|v: int| 0 <= v < k + 1 && marks@[v] == want implies #[trigger] out@.contains(
                v as u32,
            ) by {
                if v < k {
                    assert(before.contains(v as u32));
                    let j = choose|j: int| 0 <= j < before.len() && before[j] == v as u32;
                    assert(out@[j] == v as u32);
                }
            }
        }
    }
    out
}

/// Two ascending lists that share nothing and leave out nothing below `n` have `n`
/// numbers together.
proof fn lemma_split_len(a: Seq<u32>, b: Seq<u32>, n: nat)
    requires
        ascending(a),
        ascending(b),
        n <= u32::MAX,
        forall|i: int| 0 <= i < a.len() ==> (#[trigger] a[i]) < n,
        forall|i: int| 0 <= i < b.len() ==> (#[trigger] b[i]) < n,
        forall|i: int, j: int|
            0 <= i < a.len() && 0 <= j < b.len() ==> #[trigger] a[i] != #[trigger] b[j],
        forall|r: int| 0 <= r < n ==> #[trigger] a.contains(r as u32) || b.contains(r as u32),
    ensures
        a.len() + b.len() == n,
{
    let c = (a + b).map_values(|v: u32| v as int);
    let all = vstd::set_lib::set_int_range(0, n as int);
    vstd::set_lib::lemma_int_range(0, n as int);
    assert forall|i: int, j: int| 0 <= i < c.len() && 0 <= j < c.len() && i != j implies c[i] != c[j] by {
        let x = (a + b)[i];
        let y = (a + b)[j];
        if i < a.len() && j < a.len() {
            assert(a[i] != a[j]);
        } else if i >= a.len() && j >= a.len() {
            assert(b[i - a.len()] != b[j - a.len()]);
        } else if i < a.len() {
            assert(a[i] != b[j - a.len()]);
        } else {
            assert(a[j] != b[i - a.len()]);
        }
    }
    c.unique_seq_to_set();
    assert(c.to_set() =~= all) by {
        assert forall|v: int| c.to_set().contains(v) == all.contains(v) by {
            if all.contains(v) {
                if a.contains(v as u32) {
                    let i = choose|i: int| 0 <= i < a.len() && a[i] == v as u32;
                    assert(c[i] == v);
                } else {
                    let i = choose|i: int| 0 <= i < b.len() && b[i] == v as u32;
                    assert(c[a.len() + i] == v);
                }
            }
            if c.to_set().contains(v) {
                let i = choose|i: int| 0 <= i < c.len() && c[i] == v;
                if i < a.len() {
                    assert(a[i] as int == v);
                } else {
                    assert(b[i - a.len()] as int == v);
                }
            }
        }
    }
}

/// Whether `x` is among the first `k` of `order`.
pub open spec fn among(order: Seq<usize>, k: int, x: int) -> bool {
    exists|i: int| 0 <= i < k && #[trigger] order[i] == x
}

/// Whether `o` splits the rows of `w` as configured: the core has the configured number
/// of rows; each row is in the core or in the residual, in ascending order; and no
/// residual row comes before a core row by norm.
pub open spec fn is_outlier_split<T: Scalar>(
    w: Matrix<T>,
    cfg: OutlierConfig<T>,
    o: OutlierResult<T>,
) -> bool {
    &&& o.core_row_ids@.len() == core_size(w.rows as nat, cfg.fraction)
    &&& ascending(o.core_row_ids@)
    &&& ascending(o.residual_row_ids@)
    &&& splits_rows(o.core_row_ids@, o.residual_row_ids@, w.rows as nat)
    &&& has_rows(o.dense_core, w, o.core_row_ids@)
    &&& has_rows(o.residual, w, o.residual_row_ids@)
    &&& comparable(row_norms(w)) ==> forall|i: int, j: int|
        0 <= i < o.core_row_ids@.len() && 0 <= j < o.residual_row_ids@.len() ==> item_before(
            row_norms(w),
            #[trigger] o.core_row_ids@[i] as int,
            #[trigger] o.residual_row_ids@[j] as int,
            true,
        )
}

/// Splits the rows of `weights` by their norms: the rows with the largest norms are
/// the core, the others the residual; of rows with equal norms the upper ones count
/// as larger.
pub fn extract<T: Scalar>(weights: &Matrix<T>, cfg: &OutlierConfig<T>) -> (r: NseResult<
    OutlierResult<T>,
>)
    requires
        weights.wf(),
        weights.rows <= u32::MAX,
    ensures
        r matches Ok(o) && is_outlier_split(*weights, *cfg, o),
{
    let out: usize = weights.rows;
    let in_dim: usize = weights.cols;
    let wanted: usize = T::from_count(out).times(cfg.fraction).rounded();
    let n_core: usize = if out == 0 {
        0
    } else if wanted < out {
        wanted
    } else {
        out - 1
    };
    let ghost w = *weights;
    let ghost nw = row_norms(w);
    let mut norms: Vec<T> = Vec::with_capacity(out);
    for r in 0..out
        invariant
            weights.wf(),
            w == *weights,
            out == weights.rows,
            in_dim == weights.cols,
            nw == row_norms(w),
            norms@ == nw.take(r as int),
    {
        proof {
            lemma_row_index(out as int, in_dim as int, r as int);
            assert(weights.data.len() == weights.data@.len());
        }
        let row = slice_subrange(weights.data.as_slice(), r * in_dim, (r + 1) * in_dim);
        norms.push(norm(row));
        assert(norms@ =~= nw.take(r + 1));
    }
    assert(norms@ =~= nw);
    let order = sorted_order(&norms, true);
    let mut marks = crate::tensor::filled(out, false);
    for i in 0..n_core
        invariant
            n_core <= out,
            lists_range(order@, 0, out as int),
            marks@.len() == out,
            forall|v: int| 0 <= v < out ==> #[trigger] marks@[v] == among(order@, i as int, v),
    {
        let ghost before = marks@;
        let k: usize = order[i];
        marks[k] = true;
        assert forall|v: int| 0 <= v < out implies #[trigger] marks@[v] == among(
            order@,
            i + 1,
            v,
        ) by {
            assert(before[v] == among(order@, i as int, v));
            if v == k {
                assert(order@[i as int] == v);
            } else if among(order@, i + 1, v) {
                let j = choose|j: int| 0 <= j < i + 1 && #[trigger] order@[j] == v;
                assert(j < i);
            } else if among(order@, i as int, v) {
                let j = choose|j: int| 0 <= j < i && #[trigger] order@[j] == v;
                assert(j < i + 1 && order@[j] == v);
            }
        }
    }
    let core_row_ids = marked_rows(&marks, true);
    let residual_row_ids = marked_rows(&marks, false);
    let ghost core = core_row_ids@;
    let ghost rest = residual_row_ids@;
    proof {
        assert forall|r: int| 0 <= r < out implies #[trigger] core.contains(r as u32)
            || rest.contains(r as u32) by {
            if marks@[r] {
                assert(core.contains(r as u32));
            } else {
                assert(rest.contains(r as u32));
            }
        }
        lemma_split_len(core, rest, out as nat);
        lemma_core_len(order@, core, n_core as nat, out as nat);
        assert(core.len() * in_dim <= out * in_dim) by (nonlinear_arith)
            requires
                core.len() <= out,
                0 <= in_dim,
        ;
        assert(rest.len() * in_dim <= out * in_dim) by (nonlinear_arith)
            requires
                rest.len() <= out,
                0 <= in_dim,
        ;
        assert(weights.data.len() == weights.data@.len());
    }
    let dense_core = gather_rows(weights, &core_row_ids);
    let residual = gather_rows(weights, &residual_row_ids);
    proof {
        if comparable(nw) {
            assert forall|i: int, j: int| 0 <= i < core.len() && 0 <= j < rest.len() implies item_before(
                nw,
                #[trigger] core[i] as int,
                #[trigger] rest[j] as int,
                true,
            ) by {
                let a = core[i] as int;
                let b = rest[j] as int;
                assert(marks@[a] && !marks@[b]);
                let p = choose|p: int| 0 <= p < n_core && #[trigger] order@[p] == a;
                lemma_listed(order@, out as nat, b);
                let q = choose|q: int| 0 <= q < out && #[trigger] order@[q] == b;
                assert(q >= n_core) by {
                    if q < n_core {
                        assert(among(order@, n_core as int, b));
                    }
                }
                assert(in_order(nw, order@, true));
                assert(item_before(nw, order@[p] as int, order@[q] as int, true));
            }
        }
    }
    Ok(OutlierResult { dense_core, core_row_ids, residual, residual_row_ids })
}

/// The list of the numbers among the first `k` of a listing has `k` numbers.
proof fn lemma_core_len(order: Seq<usize>, core: Seq<u32>, k: nat, n: nat)
    requires
        lists_range(order, 0, n as int),
        k <= n <= u32::MAX,
        ascending(core),
        forall|i: int| 0 <= i < core.len() ==> (#[trigger] core[i]) < n && among(
            order,
            k as int,
            core[i] as int,
        ),
        forall|v: int| 0 <= v < n && among(order, k as int, v) ==> #[trigger] core.contains(v as u32),
    ensures
        core.len() == k,
{
    let a = core.map_values(|v: u32| v as int);
    let b = order.take(k as int).map_values(|v: usize| v as int);
    assert forall|i: int, j: int| 0 <= i < a.len() && 0 <= j < a.len() && i != j implies a[i] != a[j] by {
        assert(core[i] != core[j]);
    }
    assert forall|i: int, j: int| 0 <= i < b.len() && 0 <= j < b.len() && i != j implies b[i] != b[j] by {
        assert(order[i] != order[j]);
    }
    a.unique_seq_to_set();
    b.unique_seq_to_set();
    assert(a.to_set() =~= b.to_set()) by {
        assert forall|v: int| a.to_set().contains(v) == b.to_set().contains(v) by {
            if a.to_set().contains(v) {
                let i = choose|i: int| 0 <= i < a.len() && a[i] == v;
                assert(core[i] as int == v);
                let p = choose|p: int| 0 <= p < k && #[trigger] order[p] == v;
                assert(b[p] == v);
            }
            if b.to_set().contains(v) {
                let p = choose|p: int| 0 <= p < b.len() && b[p] == v;
                assert(order[p] as int == v);
                assert(among(order, k as int, v));
                assert(core.contains(v as u32));
                let i = choose|i: int| 0 <= i < core.len() && core[i] == v as u32;
                assert(a[i] == v);
            }
        }
    }
}

} // verus!
