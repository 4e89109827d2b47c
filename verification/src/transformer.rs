//! The building blocks of a transformer layer.
//!
//! The activations of a sequence lie one behind the other in a flat slice, one row of
//! numbers for each position. Contracts speak of the rows.

use vstd::prelude::*;
use vstd::slice::slice_subrange;
use crate::scalar::{
    add_four_scaled, add_scaled, dot, dot_spec, lemma_four_terms, products, sum_of, Scalar,
};
use crate::tensor::{copy_all, filled, lemma_cell_index, lemma_row_index, row_of, Matrix};

verus! {

/// The first `n` rows of numbers that lie in rows of `cols`.
pub open spec fn rows_of<T>(flat: Seq<T>, n: nat, cols: nat) -> Seq<Seq<T>> {
    Seq::new(n, |t: int| row_of(flat, cols as int, t))
}

/// Whether `flat` holds the given rows of `cols` numbers and nothing else.
pub open spec fn holds_rows<T>(flat: Seq<T>, cols: nat, rows: Seq<Seq<T>>) -> bool {
    &&& flat.len() == rows.len() * cols
    &&& forall|t: int| 0 <= t < rows.len() ==> #[trigger] row_of(flat, cols as int, t) == rows[t]
}

/// Numbers that hold rows hold those that are read from them.
pub proof fn lemma_rows_read<T>(flat: Seq<T>, cols: nat, rows: Seq<Seq<T>>)
    requires
        holds_rows(flat, cols, rows),
    ensures
        rows_of(flat, rows.len(), cols) == rows,
{
    assert(rows_of(flat, rows.len(), cols) =~= rows);
}

/// Numbers in whole rows hold the rows that are read from them.
pub proof fn lemma_rows_held<T>(flat: Seq<T>, n: nat, cols: nat)
    requires
        flat.len() == n * cols,
    ensures
        holds_rows(flat, cols, rows_of(flat, n, cols)),
        forall|t: int| 0 <= t < n ==> (#[trigger] rows_of(flat, n, cols)[t]).len() == cols,
{
    assert forall|t: int| 0 <= t < n implies (#[trigger] rows_of(flat, n, cols)[t]).len() == cols by {
        lemma_row_index(n as int, cols as int, t);
    }
}

/// The number in column `c` of row `t`.
pub proof fn lemma_rows_cell<T>(flat: Seq<T>, cols: nat, rows: Seq<Seq<T>>, t: int, c: int)
    requires
        holds_rows(flat, cols, rows),
        0 <= t < rows.len(),
        0 <= c < cols,
    ensures
        0 <= t * cols + c < flat.len(),
        flat[t * cols + c] == rows[t][c],
        rows[t].len() == cols,
{
    crate::tensor::lemma_cell_index(rows.len() as int, cols as int, t, c);
    lemma_row_index(rows.len() as int, cols as int, t);
    assert(row_of(flat, cols as int, t) == rows[t]);
}

/// Adds a row behind the others.
pub(crate) fn push_row<T: Scalar>(
    data: &mut Vec<T>,
    row: Vec<T>,
    Ghost(cols): Ghost<nat>,
    Ghost(rows): Ghost<Seq<Seq<T>>>,
)
    requires
        holds_rows(old(data)@, cols, rows),
        row@.len() == cols,
    ensures
        holds_rows(final(data)@, cols, rows.push(row@)),
{
    let ghost before = data@;
    let ghost n = rows.len() as int;
    let ghost added = row@;
    let mut row = row;
    data.append(&mut row);
    proof {
        assert((n + 1) * cols == n * cols + cols) by (nonlinear_arith);
        assert forall|t: int| 0 <= t < n + 1 implies #[trigger] row_of(data@, cols as int, t)
            == rows.push(added)[t] by {
            if t < n {
                lemma_row_index(n, cols as int, t);
                assert(row_of(data@, cols as int, t) =~= row_of(before, cols as int, t));
            } else {
                assert(row_of(data@, cols as int, t) =~= added);
            }
        }
    }
}

/// Row `t` as a slice.
pub(crate) fn row_at<'a, T: Scalar>(
    flat: &'a [T],
    cols: usize,
    t: usize,
    Ghost(n): Ghost<int>,
) -> (r: &'a [T])
    requires
        t < n,
        n * cols <= flat@.len(),
    ensures
        r@ == row_of(flat@, cols as int, t as int),
        r@.len() == cols,
{
    proof {
        lemma_row_index(n, cols as int, t as int);
        assert(flat.len() == flat@.len());
    }
    let start: usize = t * cols;
    slice_subrange(flat, start, start + cols)
}

/// The number one.
pub open spec fn one<T: Scalar>() -> T {
    T::spec_count(1)
}

/// The number two.
pub open spec fn two<T: Scalar>() -> T {
    T::spec_count(2)
}

/// The number a half.
pub open spec fn half<T: Scalar>() -> T {
    one::<T>().over_spec(two::<T>())
}

/// What is added to a variance before it is divided by: a hundred-thousandth.
pub open spec fn norm_floor<T: Scalar>() -> T {
    one::<T>().over_spec(T::spec_count(100000))
}

/// The mean of a row.
pub open spec fn mean_spec<T: Scalar>(row: Seq<T>) -> T {
    sum_of(row, row.len()).over_spec(T::spec_count(row.len() as usize))
}

/// The squares of the differences to `mean`.
pub open spec fn squared_deviations<T: Scalar>(row: Seq<T>, mean: T) -> Seq<T> {
    row.map_values(|v: T| v.minus_spec(mean).times_spec(v.minus_spec(mean)))
}

/// The variance of a row.
pub open spec fn variance_spec<T: Scalar>(row: Seq<T>) -> T {
    sum_of(squared_deviations(row, mean_spec(row)), row.len()).over_spec(
        T::spec_count(row.len() as usize),
    )
}

/// One over the standard deviation of a row.
pub open spec fn rstd_spec<T: Scalar>(row: Seq<T>) -> T {
    one::<T>().over_spec(variance_spec(row).plus_spec(norm_floor::<T>()).root_spec())
}

/// A row with its mean taken away, divided by its standard deviation and scaled by the
/// gain.
pub open spec fn norm_row<T: Scalar>(row: Seq<T>, gain: Seq<T>) -> Seq<T> {
    Seq::new(
        row.len(),
        |j: int|
            gain[j].times_spec(row[j].minus_spec(mean_spec(row))).times_spec(rstd_spec(row)),
    )
}

/// All rows normalised.
pub open spec fn norm_rows<T: Scalar>(rows: Seq<Seq<T>>, gain: Seq<T>) -> Seq<Seq<T>> {
    rows.map_values(|r: Seq<T>| norm_row(r, gain))
}

/// The mean of a row and one over its standard deviation.
pub fn row_statistics<T: Scalar>(row: &[T]) -> (r: (T, T))
    ensures
        r.0 == mean_spec(row@),
        r.1 == rstd_spec(row@),
{
    let n: usize = row.len();
    let count = T::from_count(n);
    let mut acc = T::zero();
    for i in 0..n
        invariant
            n == row@.len(),
            acc == sum_of(row@, i as nat),
    {
        acc = acc.plus(row[i]);
    }
    let mean = acc.over(count);
    let ghost dev = squared_deviations(row@, mean);
    let mut sq = T::zero();
    for i in 0..n
        invariant
            n == row@.len(),
            dev == squared_deviations(row@, mean),
            sq == sum_of(dev, i as nat),
    {
        let d = row[i].minus(mean);
        sq = sq.plus(d.times(d));
    }
    let var = sq.over(count);
    let floor = T::from_count(1).over(T::from_count(100000));
    (mean, T::from_count(1).over(var.plus(floor).root()))
}

/// Normalises every row. Returns the rows and one over the standard deviation of each.
pub fn layernorm_fwd<T: Scalar>(x: &[T], seq: usize, dim: usize, gain: &[T]) -> (r: (Vec<T>, Vec<T>))
    requires
        x@.len() == seq * dim,
        gain@.len() >= dim,
    ensures
        holds_rows(r.0@, dim as nat, norm_rows(rows_of(x@, seq as nat, dim as nat), gain@)),
        r.1@ == rows_of(x@, seq as nat, dim as nat).map_values(|row: Seq<T>| rstd_spec(row)),
{
    let ghost rows = rows_of(x@, seq as nat, dim as nat);
    let ghost goal = norm_rows(rows, gain@);
    let ghost want = rows.map_values(|row: Seq<T>| rstd_spec(row));
    let mut out: Vec<T> = Vec::with_capacity(x.len());
    let mut rstd: Vec<T> = Vec::with_capacity(seq);
    assert(0 * dim == 0) by (nonlinear_arith);
    for t in 0..seq
        invariant
            x@.len() == seq * dim,
            gain@.len() >= dim,
            rows == rows_of(x@, seq as nat, dim as nat),
            goal == norm_rows(rows, gain@),
            want == rows.map_values(|row: Seq<T>| rstd_spec(row)),
            holds_rows(out@, dim as nat, goal.take(t as int)),
            rstd@ == want.take(t as int),
    {
        let row = row_at(x, dim, t, Ghost(seq as int));
        let (mean, inv) = row_statistics(row);
        let mut new_row: Vec<T> = Vec::with_capacity(dim);
        for j in 0..dim
            invariant
                row@.len() == dim,
                gain@.len() >= dim,
                mean == mean_spec(row@),
                inv == rstd_spec(row@),
                new_row@ == norm_row(row@, gain@).take(j as int),
        {
            new_row.push(gain[j].times(row[j].minus(mean)).times(inv));
            assert(new_row@ =~= norm_row(row@, gain@).take(j + 1));
        }
        assert(new_row@ =~= norm_row(row@, gain@));
        assert(goal.take(t + 1) =~= goal.take(t as int).push(new_row@));
        push_row(&mut out, new_row, Ghost(dim as nat), Ghost(goal.take(t as int)));
        rstd.push(inv);
        assert(rstd@ =~= want.take(t + 1));
    }
    assert(goal.take(seq as int) =~= goal);
    assert(rstd@ =~= want);
    (out, rstd)
}

/// Normalises every row.
pub fn layernorm<T: Scalar>(x: &[T], seq: usize, dim: usize, gain: &[T]) -> (r: Vec<T>)
    requires
        x@.len() == seq * dim,
        gain@.len() >= dim,
    ensures
        holds_rows(r@, dim as nat, norm_rows(rows_of(x@, seq as nat, dim as nat), gain@)),
{
    layernorm_fwd(x, seq, dim, gain).0
}

/// The inner products of a row with the rows of a matrix.
pub open spec fn applied<T: Scalar>(w: Matrix<T>, row: Seq<T>) -> Seq<T> {
    Seq::new(w.rows as nat, |j: int| dot_spec(row, w.row_seq(j)))
}

/// A matrix applied to every row.
pub open spec fn applied_rows<T: Scalar>(w: Matrix<T>, rows: Seq<Seq<T>>) -> Seq<Seq<T>> {
    rows.map_values(|r: Seq<T>| applied(w, r))
}

/// A cell of a row of the matrix is found in a row of the transposed one.
proof fn lemma_transposed_cell<T: Scalar>(w: Matrix<T>, wt: Matrix<T>, j: int, k: int)
    requires
        w.wf(),
        wt.wf(),
        wt.rows == w.cols,
        wt.cols == w.rows,
        forall|r: int, c: int|
            0 <= r < w.rows && 0 <= c < w.cols ==> #[trigger] wt.cell(c, r) == w.cell(r, c),
        0 <= j < w.rows,
        0 <= k < w.cols,
    ensures
        w.row_seq(j).len() == w.cols,
        row_of(wt.data@, w.rows as int, k)[j] == w.row_seq(j)[k],
{
    lemma_row_index(w.rows as int, w.cols as int, j);
    lemma_row_index(w.cols as int, w.rows as int, k);
    assert(wt.cell(k, j) == w.cell(j, k));
}

/// Applies the matrix to each of the `seq` rows of `h`.
pub fn apply_to_rows<T: Scalar>(h: &[T], seq: usize, w: &Matrix<T>) -> (r: Vec<T>)
    requires
        w.wf(),
        seq * w.cols <= h@.len(),
    ensures
        holds_rows(
            r@,
            w.rows as nat,
            applied_rows(*w, rows_of(h@, seq as nat, w.cols as nat)),
        ),
{
    let cols: usize = w.cols;
    let wt = w.transposed();
    let ghost rows = rows_of(h@, seq as nat, cols as nat);
    let ghost goal = applied_rows(*w, rows);
    let mut out: Vec<T> = Vec::new();
    assert(0 * w.rows == 0) by (nonlinear_arith);
    for i in 0..seq
        invariant
            w.wf(),
            wt.wf(),
            wt.rows == w.cols,
            wt.cols == w.rows,
            forall|r: int, c: int|
                0 <= r < w.rows && 0 <= c < w.cols ==> #[trigger] wt.cell(c, r) == w.cell(r, c),
            cols == w.cols,
            seq * cols <= h@.len(),
            rows == rows_of(h@, seq as nat, cols as nat),
            goal == applied_rows(*w, rows),
            holds_rows(out@, w.rows as nat, goal.take(i as int)),
    {
        let row = row_at(h, cols, i, Ghost(seq as int));
        let mut new_row = filled(w.rows, T::zero());
        let mut k: usize = 0;
        while 4 <= cols - k
            invariant
                w.wf(),
                wt.wf(),
                wt.rows == w.cols,
                wt.cols == w.rows,
                forall|r: int, c: int|
                    0 <= r < w.rows && 0 <= c < w.cols ==> #[trigger] wt.cell(c, r) == w.cell(r, c),
                cols == w.cols,
                row@.len() == cols,
                new_row@.len() == w.rows,
                forall|j: int|
                    0 <= j < w.rows ==> #[trigger] new_row@[j] == sum_of(
                        products(row@, w.row_seq(j)),
                        k as nat,
                    ),
                k <= cols,
            decreases cols - k,
        {
            let a = row_at(&wt.data, w.rows, k, Ghost(cols as int));
            let b = row_at(&wt.data, w.rows, k + 1, Ghost(cols as int));
            let c = row_at(&wt.data, w.rows, k + 2, Ghost(cols as int));
            let d = row_at(&wt.data, w.rows, k + 3, Ghost(cols as int));
            let ghost before = new_row@;
            add_four_scaled(&mut new_row, [row[k], row[k + 1], row[k + 2], row[k + 3]], a, b, c, d);
            assert forall|j: int| 0 <= j < w.rows implies #[trigger] new_row@[j] == sum_of(
                products(row@, w.row_seq(j)),
                (k + 4) as nat,
            ) by {
                let terms = products(row@, w.row_seq(j));
                assert(before[j] == sum_of(terms, k as nat));
                lemma_transposed_cell(*w, wt, j, k as int);
                assert(a@[j] == w.row_seq(j)[k as int]);
                lemma_transposed_cell(*w, wt, j, k + 1);
                assert(b@[j] == w.row_seq(j)[k + 1]);
                lemma_transposed_cell(*w, wt, j, k + 2);
                assert(c@[j] == w.row_seq(j)[k + 2]);
                lemma_transposed_cell(*w, wt, j, k + 3);
                assert(d@[j] == w.row_seq(j)[k + 3]);
                lemma_four_terms(terms, k as nat);
            }
            k = k + 4;
        }
        for k in k..cols
            invariant
                w.wf(),
                wt.wf(),
                wt.rows == w.cols,
                wt.cols == w.rows,
                forall|r: int, c: int|
                    0 <= r < w.rows && 0 <= c < w.cols ==> #[trigger] wt.cell(c, r) == w.cell(r, c),
                cols == w.cols,
                row@.len() == cols,
                new_row@.len() == w.rows,
                forall|j: int|
                    0 <= j < w.rows ==> #[trigger] new_row@[j] == sum_of(
                        products(row@, w.row_seq(j)),
                        k as nat,
                    ),
        {
            let column = row_at(&wt.data, w.rows, k, Ghost(cols as int));
            let ghost before = new_row@;
            add_scaled(&mut new_row, row[k], column);
            assert forall|j: int| 0 <= j < w.rows implies #[trigger] new_row@[j] == sum_of(
                products(row@, w.row_seq(j)),
                (k + 1) as nat,
            ) by {
                let terms = products(row@, w.row_seq(j));
                assert(before[j] == sum_of(terms, k as nat));
                lemma_transposed_cell(*w, wt, j, k as int);
                assert(column@[j] == w.row_seq(j)[k as int]);
                assert(terms[k as int] == row@[k as int].times_spec(column@[j]));
            }
        }
        assert forall|j: int| 0 <= j < w.rows implies #[trigger] new_row@[j] == applied(
            *w,
            row@,
        )[j] by {
            lemma_row_index(w.rows as int, cols as int, j);
            assert(products(row@, w.row_seq(j)).len() == cols);
        }
        assert(new_row@ =~= applied(*w, row@));
        assert(goal.take(i + 1) =~= goal.take(i as int).push(new_row@));
        push_row(&mut out, new_row, Ghost(w.rows as nat), Ghost(goal.take(i as int)));
    }
    assert(goal.take(seq as int) =~= goal);
    out
}

/// Applies the matrix to every whole row of `h`.
pub fn matmul_rows<T: Scalar>(h: &[T], w: &Matrix<T>) -> (r: Vec<T>)
    requires
        w.wf(),
        w.cols > 0,
    ensures
        holds_rows(
            r@,
            w.rows as nat,
            applied_rows(*w, rows_of(h@, h@.len() / w.cols as nat, w.cols as nat)),
        ),
{
    let seq: usize = h.len() / w.cols;
    assert(seq * w.cols <= h@.len()) by {
        vstd::arithmetic::div_mod::lemma_fundamental_div_mod(h@.len() as int, w.cols as int);
        assert(seq * w.cols == w.cols * seq) by (nonlinear_arith);
    }
    apply_to_rows(h, seq, w)
}

/// Part `p` of each row, where a row has parts of `dim` numbers.
pub open spec fn row_parts<T>(rows: Seq<Seq<T>>, dim: nat, p: int) -> Seq<Seq<T>> {
    rows.map_values(|r: Seq<T>| row_of(r, dim as int, p))
}

/// Cuts one part out of each row.
fn cut_part<T: Scalar>(flat: &[T], seq: usize, dim: usize, parts: usize, p: usize) -> (r: Vec<T>)
    requires
        p < parts,
        parts * dim <= usize::MAX,
        flat@.len() == seq * (parts * dim),
    ensures
        holds_rows(
            r@,
            dim as nat,
            row_parts(rows_of(flat@, seq as nat, (parts * dim) as nat), dim as nat, p as int),
        ),
{
    let cols: usize = parts * dim;
    let ghost rows = rows_of(flat@, seq as nat, cols as nat);
    let ghost goal = row_parts(rows, dim as nat, p as int);
    let mut out: Vec<T> = Vec::new();
    assert(0 * dim == 0) by (nonlinear_arith);
    for t in 0..seq
        invariant
            p < parts,
            cols == parts * dim,
            flat@.len() == seq * cols,
            rows == rows_of(flat@, seq as nat, cols as nat),
            goal == row_parts(rows, dim as nat, p as int),
            holds_rows(out@, dim as nat, goal.take(t as int)),
    {
        let row = row_at(flat, cols, t, Ghost(seq as int));
        let piece = row_at(row, dim, p, Ghost(parts as int));
        let new_row = copy_all(piece);
        assert(goal.take(t + 1) =~= goal.take(t as int).push(new_row@));
        push_row(&mut out, new_row, Ghost(dim as nat), Ghost(goal.take(t as int)));
    }
    assert(goal.take(seq as int) =~= goal);
    out
}

/// Splits rows of three parts into the queries, the keys and the values.
pub fn split_qkv<T: Scalar>(qkv: &[T], seq: usize, dim: usize) -> (r: (Vec<T>, Vec<T>, Vec<T>))
    requires
        3 * dim <= usize::MAX,
        qkv@.len() == seq * (3 * dim),
    ensures
        ({
            let rows = rows_of(qkv@, seq as nat, (3 * dim) as nat);
            &&& holds_rows(r.0@, dim as nat, row_parts(rows, dim as nat, 0))
            &&& holds_rows(r.1@, dim as nat, row_parts(rows, dim as nat, 1))
            &&& holds_rows(r.2@, dim as nat, row_parts(rows, dim as nat, 2))
        }),
{
    (
        cut_part(qkv, seq, dim, 3, 0),
        cut_part(qkv, seq, dim, 3, 1),
        cut_part(qkv, seq, dim, 3, 2),
    )
}

/// The largest of the first `n` numbers, or the lowest number where none is more.
pub open spec fn max_upto<T: Scalar>(s: Seq<T>, n: nat) -> T
    decreases n,
{
    if n == 0 {
        T::spec_lowest()
    } else {
        let m = max_upto(s, (n - 1) as nat);
        if m.below_spec(s[n - 1]) {
            s[n - 1]
        } else {
            m
        }
    }
}

/// The exponentials of the numbers, each with the largest taken away first.
pub open spec fn shifted_exps<T: Scalar>(s: Seq<T>) -> Seq<T> {
    s.map_values(|v: T| v.minus_spec(max_upto(s, s.len())).exp_spec())
}

/// One over the sum, or zero if the sum is not positive.
pub open spec fn inverse_or_zero<T: Scalar>(sum: T) -> T {
    if T::spec_zero().below_spec(sum) {
        one::<T>().over_spec(sum)
    } else {
        T::spec_zero()
    }
}

/// The numbers as weights in proportion to their exponentials.
pub open spec fn softmax_spec<T: Scalar>(s: Seq<T>) -> Seq<T> {
    let e = shifted_exps(s);
    e.map_values(|v: T| v.times_spec(inverse_or_zero(sum_of(e, e.len()))))
}

/// The largest number.
pub fn max_of<T: Scalar>(s: &[T]) -> (r: T)
    ensures
        r == max_upto(s@, s@.len()),
{
    let mut m = T::lowest();
    for i in 0..s.len()
        invariant
            m == max_upto(s@, i as nat),
    {
        if m.below(s[i]) {
            m = s[i];
        }
    }
    m
}

/// The numbers as weights in proportion to their exponentials.
pub fn softmax<T: Scalar>(s: &[T]) -> (r: Vec<T>)
    ensures
        r@ == softmax_spec(s@),
{
    let n: usize = s.len();
    let max = max_of(s);
    let ghost e = shifted_exps(s@);
    let mut exps: Vec<T> = Vec::with_capacity(n);
    let mut sum = T::zero();
    for i in 0..n
        invariant
            n == s@.len(),
            max == max_upto(s@, s@.len()),
            e == shifted_exps(s@),
            exps@ == e.take(i as int),
            sum == sum_of(e, i as nat),
    {
        let v = s[i].minus(max).exp();
        exps.push(v);
        sum = sum.plus(v);
        assert(exps@ =~= e.take(i + 1));
    }
    assert(exps@ =~= e);
    let inv = if T::zero().below(sum) {
        T::from_count(1).over(sum)
    } else {
        T::zero()
    };
    let ghost goal = softmax_spec(s@);
    let mut out: Vec<T> = Vec::with_capacity(n);
    for i in 0..n
        invariant
            n == s@.len(),
            exps@ == e,
            e == shifted_exps(s@),
            inv == inverse_or_zero(sum_of(e, e.len())),
            goal == softmax_spec(s@),
            out@ == goal.take(i as int),
    {
        out.push(exps[i].times(inv));
        assert(out@ =~= goal.take(i + 1));
    }
    assert(out@ =~= goal);
    out
}

/// What scores are scaled by: one over the square root of the width of a head.
pub open spec fn head_scale<T: Scalar>(head_dim: int) -> T {
    one::<T>().over_spec(T::spec_count(head_dim as usize).root_spec())
}

/// How well the query at position `i` matches the keys up to that position, in head `h`.
pub open spec fn head_scores<T: Scalar>(
    q: Seq<Seq<T>>,
    k: Seq<Seq<T>>,
    head_dim: int,
    h: int,
    i: int,
) -> Seq<T> {
    Seq::new(
        (i + 1) as nat,
        |j: int|
            dot_spec(row_of(q[i], head_dim, h), row_of(k[j], head_dim, h)).times_spec(
                head_scale::<T>(head_dim),
            ),
    )
}

/// The weights that position `i` gives to the positions up to itself, in head `h`.
pub open spec fn head_weights<T: Scalar>(
    q: Seq<Seq<T>>,
    k: Seq<Seq<T>>,
    head_dim: int,
    h: int,
    i: int,
) -> Seq<T> {
    softmax_spec(head_scores(q, k, head_dim, h, i))
}

/// The terms of a weighted sum of column `c` of the values.
pub open spec fn weighted<T: Scalar>(p: Seq<T>, v: Seq<Seq<T>>, c: int) -> Seq<T> {
    Seq::new(p.len(), |j: int| p[j].times_spec(v[j][c]))
}

/// The output of attention at position `i`: in each head the weighted sum of the values
/// up to that position; zero in columns behind the last head.
pub open spec fn attention_row<T: Scalar>(
    q: Seq<Seq<T>>,
    k: Seq<Seq<T>>,
    v: Seq<Seq<T>>,
    dim: int,
    num_heads: int,
    i: int,
) -> Seq<T> {
    let hd = dim / num_heads;
    Seq::new(
        dim as nat,
        |c: int|
            if c < num_heads * hd {
                let p = head_weights(q, k, hd, c / hd, i);
                sum_of(weighted(p, v, c), p.len())
            } else {
                T::spec_zero()
            },
    )
}

/// The output of attention.
pub open spec fn attention_rows<T: Scalar>(
    q: Seq<Seq<T>>,
    k: Seq<Seq<T>>,
    v: Seq<Seq<T>>,
    dim: int,
    num_heads: int,
) -> Seq<Seq<T>> {
    Seq::new(q.len(), |i: int| attention_row(q, k, v, dim, num_heads, i))
}

/// `p` with zeros behind it up to length `n`.
pub open spec fn padded<T: Scalar>(p: Seq<T>, n: nat) -> Seq<T> {
    Seq::new(
        n,
        |j: int|
            if j < p.len() {
                p[j]
            } else {
                T::spec_zero()
            },
    )
}

/// The weights of all positions and heads: row `i * num_heads + h` has those of position
/// `i` in head `h`.
pub open spec fn weight_rows<T: Scalar>(
    q: Seq<Seq<T>>,
    k: Seq<Seq<T>>,
    head_dim: int,
    num_heads: int,
) -> Seq<Seq<T>> {
    Seq::new(
        (q.len() * num_heads) as nat,
        |r: int| padded(head_weights(q, k, head_dim, r % num_heads, r / num_heads), q.len()),
    )
}

/// The weights of one position in one head.
fn compute_head_weights<T: Scalar>(
    q: &[T],
    k: &[T],
    seq: usize,
    dim: usize,
    num_heads: usize,
    head_dim: usize,
    h: usize,
    i: usize,
) -> (p: Vec<T>)
    requires
        q@.len() == seq * dim,
        k@.len() == seq * dim,
        i < seq,
        h < num_heads,
        num_heads * head_dim <= dim,
    ensures
        p@ == head_weights(
            rows_of(q@, seq as nat, dim as nat),
            rows_of(k@, seq as nat, dim as nat),
            head_dim as int,
            h as int,
            i as int,
        ),
        p@.len() == i + 1,
{
    let ghost qs = rows_of(q@, seq as nat, dim as nat);
    let ghost ks = rows_of(k@, seq as nat, dim as nat);
    let ghost goal = head_scores(qs, ks, head_dim as int, h as int, i as int);
    let scale = T::from_count(1).over(T::from_count(head_dim).root());
    let qrow = row_at(q, dim, i, Ghost(seq as int));
    let qhead = row_at(qrow, head_dim, h, Ghost(num_heads as int));
    let mut scores: Vec<T> = Vec::with_capacity(i + 1);
    for j in 0..i + 1
        invariant
            i < seq,
            h < num_heads,
            num_heads * head_dim <= dim,
            k@.len() == seq * dim,
            qs == rows_of(q@, seq as nat, dim as nat),
            ks == rows_of(k@, seq as nat, dim as nat),
            goal == head_scores(qs, ks, head_dim as int, h as int, i as int),
            scale == head_scale::<T>(head_dim as int),
            qhead@ == row_of(qs[i as int], head_dim as int, h as int),
            scores@ == goal.take(j as int),
    {
        let krow = row_at(k, dim, j, Ghost(seq as int));
        let khead = row_at(krow, head_dim, h, Ghost(num_heads as int));
        scores.push(dot(qhead, khead).times(scale));
        assert(scores@ =~= goal.take(j + 1));
    }
    assert(scores@ =~= goal);
    softmax(&scores)
}

/// Causal attention in several heads: each position looks at itself and the positions in
/// front of it. Returns the output and the weights.
pub fn causal_attention<T: Scalar>(
    q: &[T],
    k: &[T],
    v: &[T],
    seq: usize,
    dim: usize,
    num_heads: usize,
) -> (r: (Vec<T>, Vec<T>))
    requires
        num_heads > 0,
        q@.len() == seq * dim,
        k@.len() == seq * dim,
        v@.len() == seq * dim,
    ensures
        ({
            let qs = rows_of(q@, seq as nat, dim as nat);
            let ks = rows_of(k@, seq as nat, dim as nat);
            let vs = rows_of(v@, seq as nat, dim as nat);
            &&& holds_rows(
                r.0@,
                dim as nat,
                attention_rows(qs, ks, vs, dim as int, num_heads as int),
            )
            &&& holds_rows(
                r.1@,
                seq as nat,
                weight_rows(qs, ks, dim as int / num_heads as int, num_heads as int),
            )
        }),
{
    let head_dim: usize = dim / num_heads;
    let ghost qs = rows_of(q@, seq as nat, dim as nat);
    let ghost ks = rows_of(k@, seq as nat, dim as nat);
    let ghost vs = rows_of(v@, seq as nat, dim as nat);
    let ghost goal = attention_rows(qs, ks, vs, dim as int, num_heads as int);
    let ghost wgoal = weight_rows(qs, ks, head_dim as int, num_heads as int);
    let mut out: Vec<T> = Vec::new();
    let mut probs: Vec<T> = Vec::new();
    proof {
        vstd::arithmetic::div_mod::lemma_fundamental_div_mod(dim as int, num_heads as int);
        assert(0 * dim == 0) by (nonlinear_arith);
        assert(0 * seq == 0) by (nonlinear_arith);
        assert(0 * num_heads == 0) by (nonlinear_arith);
    }
    for i in 0..seq
        invariant
            num_heads > 0,
            head_dim == dim as int / num_heads as int,
            num_heads * head_dim <= dim,
            q@.len() == seq * dim,
            k@.len() == seq * dim,
            v@.len() == seq * dim,
            qs == rows_of(q@, seq as nat, dim as nat),
            ks == rows_of(k@, seq as nat, dim as nat),
            vs == rows_of(v@, seq as nat, dim as nat),
            goal == attention_rows(qs, ks, vs, dim as int, num_heads as int),
            wgoal == weight_rows(qs, ks, head_dim as int, num_heads as int),
            holds_rows(out@, dim as nat, goal.take(i as int)),
            holds_rows(probs@, seq as nat, wgoal.take(i * num_heads)),
    {
        let ghost want = attention_row(qs, ks, vs, dim as int, num_heads as int, i as int);
        let mut row: Vec<T> = Vec::with_capacity(dim);
        assert(0 * head_dim == 0) by (nonlinear_arith);
        for h in 0..num_heads
            invariant
                i < seq,
                num_heads > 0,
                head_dim == dim as int / num_heads as int,
                num_heads * head_dim <= dim,
                q@.len() == seq * dim,
                k@.len() == seq * dim,
                v@.len() == seq * dim,
                qs == rows_of(q@, seq as nat, dim as nat),
                ks == rows_of(k@, seq as nat, dim as nat),
                vs == rows_of(v@, seq as nat, dim as nat),
                wgoal == weight_rows(qs, ks, head_dim as int, num_heads as int),
                want == attention_row(qs, ks, vs, dim as int, num_heads as int, i as int),
                row@.len() == h * head_dim,
                row@ == want.take(h * head_dim),
                holds_rows(probs@, seq as nat, wgoal.take(i * num_heads + h)),
        {
            let p = compute_head_weights(q, k, seq, dim, num_heads, head_dim, h, i);
            proof {
                lemma_row_index(num_heads as int, head_dim as int, h as int);
            }
            for d2 in 0..head_dim
                invariant
                    i < seq,
                    h < num_heads,
                    head_dim == dim as int / num_heads as int,
                    num_heads * head_dim <= dim,
                    (h + 1) * head_dim == h * head_dim + head_dim,
                    (h + 1) * head_dim <= num_heads * head_dim,
                    v@.len() == seq * dim,
                    vs == rows_of(v@, seq as nat, dim as nat),
                    want == attention_row(qs, ks, vs, dim as int, num_heads as int, i as int),
                    p@ == head_weights(qs, ks, head_dim as int, h as int, i as int),
                    p@.len() == i + 1,
                    row@.len() == h * head_dim + d2,
                    row@ == want.take(h * head_dim + d2),
            {
                let ghost c = h * head_dim + d2;
                proof {
                    assert(0 <= h * head_dim) by (nonlinear_arith);
                    assert(c < dim);
                }
                let col: usize = h * head_dim + d2;
                let ghost terms = weighted(p@, vs, c);
                let mut acc = T::zero();
                for j in 0..i + 1
                    invariant
                        i < seq,
                        col == c,
                        0 <= c < dim,
                        v@.len() == seq * dim,
                        vs == rows_of(v@, seq as nat, dim as nat),
                        p@.len() == i + 1,
                        terms == weighted(p@, vs, c),
                        acc == sum_of(terms, j as nat),
                {
                    let vrow = row_at(v, dim, j, Ghost(seq as int));
                    acc = acc.plus(p[j].times(vrow[col]));
                }
                row.push(acc);
                proof {
                    vstd::arithmetic::div_mod::lemma_fundamental_div_mod_converse(
                        c,
                        head_dim as int,
                        h as int,
                        d2 as int,
                    );
                    assert(want[c] == acc);
                    assert(row@ =~= want.take(c + 1));
                }
            }
            let wrow = pad(&p, seq);
            proof {
                let r = i * num_heads + h;
                vstd::arithmetic::div_mod::lemma_fundamental_div_mod_converse(
                    r,
                    num_heads as int,
                    i as int,
                    h as int,
                );
                assert(0 <= i * num_heads) by (nonlinear_arith);
                assert((i + 1) * num_heads <= seq * num_heads) by (nonlinear_arith)
                    requires
                        i + 1 <= seq,
                        num_heads >= 0,
                ;
                assert((i + 1) * num_heads == i * num_heads + num_heads) by (nonlinear_arith);
                assert(wgoal[r] == wrow@);
                assert(wgoal.take(r + 1) =~= wgoal.take(r).push(wrow@));
            }
            push_row(&mut probs, wrow, Ghost(seq as nat), Ghost(wgoal.take(i * num_heads + h)));
        }
        let used: usize = num_heads * head_dim;
        for c in used..dim
            invariant
                used == num_heads * head_dim,
                used <= dim,
                head_dim == dim as int / num_heads as int,
                want == attention_row(qs, ks, vs, dim as int, num_heads as int, i as int),
                row@ == want.take(c as int),
        {
            row.push(T::zero());
            assert(row@ =~= want.take(c + 1));
        }
        assert(row@ =~= want);
        assert(goal.take(i + 1) =~= goal.take(i as int).push(row@));
        assert((i + 1) * num_heads == i * num_heads + num_heads) by (nonlinear_arith);
        push_row(&mut out, row, Ghost(dim as nat), Ghost(goal.take(i as int)));
    }
    assert(goal.take(seq as int) =~= goal);
    assert(wgoal.take(seq * num_heads) =~= wgoal);
    (out, probs)
}

/// `p` with zeros behind it up to length `n`.
fn pad<T: Scalar>(p: &Vec<T>, n: usize) -> (r: Vec<T>)
    ensures
        r@ == padded(p@, n as nat),
{
    let mut out: Vec<T> = Vec::with_capacity(n);
    for j in 0..n
        invariant
            out@ == padded(p@, n as nat).take(j as int),
    {
        let v = if j < p.len() {
            p[j]
        } else {
            T::zero()
        };
        out.push(v);
        assert(out@ =~= padded(p@, n as nat).take(j + 1));
    }
    assert(out@ =~= padded(p@, n as nat));
    out
}

/// Causal attention in several heads.
pub fn causal_self_attention<T: Scalar>(
    q: &[T],
    k: &[T],
    v: &[T],
    seq: usize,
    dim: usize,
    num_heads: usize,
) -> (r: Vec<T>)
    requires
        num_heads > 0,
        q@.len() == seq * dim,
        k@.len() == seq * dim,
        v@.len() == seq * dim,
    ensures
        holds_rows(
            r@,
            dim as nat,
            attention_rows(
                rows_of(q@, seq as nat, dim as nat),
                rows_of(k@, seq as nat, dim as nat),
                rows_of(v@, seq as nat, dim as nat),
                dim as int,
                num_heads as int,
            ),
        ),
{
    causal_attention(q, k, v, seq, dim, num_heads).0
}

/// What inputs are scaled by inside the activation: the square root of a half.
pub open spec fn gelu_factor<T: Scalar>() -> T {
    half::<T>().root_spec()
}

/// The hyperbolic tangent inside the activation.
pub open spec fn gelu_tanh<T: Scalar>(v: T) -> T {
    let t = v.times_spec(gelu_factor::<T>());
    two::<T>().times_spec(t).times_spec(gelu_inner(v)).tanh_spec()
}

/// The cubic correction inside the activation.
pub open spec fn gelu_inner<T: Scalar>(v: T) -> T {
    let t = v.times_spec(gelu_factor::<T>());
    one::<T>().plus_spec(
        T::spec_count(44715).over_spec(T::spec_count(1000000)).times_spec(t).times_spec(t),
    )
}

/// The activation of the feed-forward block: a smooth step, approximated with a
/// hyperbolic tangent.
pub open spec fn gelu_spec<T: Scalar>(v: T) -> T {
    half::<T>().times_spec(v).times_spec(one::<T>().plus_spec(gelu_tanh(v)))
}

/// The derivative of the activation, with the correction inside the hyperbolic tangent
/// taken as a constant.
pub open spec fn gelu_deriv_spec<T: Scalar>(v: T) -> T {
    let tanh = gelu_tanh(v);
    half::<T>().times_spec(one::<T>().plus_spec(tanh)).plus_spec(
        half::<T>().times_spec(v).times_spec(
            one::<T>().minus_spec(tanh.times_spec(tanh)),
        ).times_spec(gelu_factor::<T>()).times_spec(two::<T>()).times_spec(gelu_inner(v)),
    )
}

/// The hyperbolic tangent and the correction inside the activation.
fn gelu_parts<T: Scalar>(v: T) -> (r: (T, T))
    ensures
        r.0 == gelu_tanh(v),
        r.1 == gelu_inner(v),
{
    let one = T::from_count(1);
    let two = T::from_count(2);
    let t = v.times(one.over(two).root());
    let inner = one.plus(T::from_count(44715).over(T::from_count(1000000)).times(t).times(t));
    (two.times(t).times(inner).tanh(), inner)
}

/// The activation of the feed-forward block.
pub fn gelu<T: Scalar>(v: T) -> (r: T)
    ensures
        r == gelu_spec(v),
{
    let (tanh, inner) = gelu_parts(v);
    let one = T::from_count(1);
    one.over(T::from_count(2)).times(v).times(one.plus(tanh))
}

/// The derivative of the activation.
pub fn gelu_deriv<T: Scalar>(v: T) -> (r: T)
    ensures
        r == gelu_deriv_spec(v),
{
    let (tanh, inner) = gelu_parts(v);
    let one = T::from_count(1);
    let two = T::from_count(2);
    let half = one.over(two);
    let sech2 = one.minus(tanh.times(tanh));
    half.times(one.plus(tanh)).plus(
        half.times(v).times(sech2).times(half.root()).times(two).times(inner),
    )
}

/// The activation of every number.
pub open spec fn gelu_all<T: Scalar>(s: Seq<T>) -> Seq<T> {
    s.map_values(|v: T| gelu_spec(v))
}

/// The activation of every number in every row.
pub open spec fn gelu_rows<T: Scalar>(rows: Seq<Seq<T>>) -> Seq<Seq<T>> {
    rows.map_values(|r: Seq<T>| gelu_all(r))
}

/// Replaces every number by its activation.
pub fn gelu_inplace<T: Scalar>(x: &mut Vec<T>)
    ensures
        final(x)@ == gelu_all(old(x)@),
{
    let ghost x0 = x@;
    let n: usize = x.len();
    for i in 0..n
        invariant
            n == x0.len(),
            x@.len() == x0.len(),
            forall|j: int| 0 <= j < i ==> x@[j] == gelu_spec(x0[j]),
            forall|j: int| i <= j < x0.len() ==> x@[j] == x0[j],
    {
        let v = gelu(x[i]);
        x[i] = v;
    }
    assert(x@ =~= gelu_all(x0));
}

/// Mapping every number maps every row.
pub proof fn lemma_gelu_rows<T: Scalar>(flat: Seq<T>, cols: nat, rows: Seq<Seq<T>>)
    requires
        holds_rows(flat, cols, rows),
    ensures
        holds_rows(gelu_all(flat), cols, gelu_rows(rows)),
{
    assert forall|t: int| 0 <= t < rows.len() implies #[trigger] row_of(
        gelu_all(flat),
        cols as int,
        t,
    ) == gelu_rows(rows)[t] by {
        lemma_row_index(rows.len() as int, cols as int, t);
        assert(row_of(flat, cols as int, t) == rows[t]);
        assert(row_of(gelu_all(flat), cols as int, t) =~= gelu_all(rows[t]));
    }
}

/// Two rows added, number by number.
pub open spec fn added<T: Scalar>(a: Seq<T>, b: Seq<T>) -> Seq<T> {
    Seq::new(a.len(), |j: int| a[j].plus_spec(b[j]))
}

/// Rows added to rows.
pub open spec fn added_rows<T: Scalar>(a: Seq<Seq<T>>, b: Seq<Seq<T>>) -> Seq<Seq<T>> {
    Seq::new(a.len(), |t: int| added(a[t], b[t]))
}

/// Adds number by number.
pub fn add_all<T: Scalar>(a: &[T], b: &[T]) -> (r: Vec<T>)
    requires
        a@.len() == b@.len(),
    ensures
        r@ == added(a@, b@),
{
    let mut out: Vec<T> = Vec::with_capacity(a.len());
    for i in 0..a.len()
        invariant
            a@.len() == b@.len(),
            out@ == added(a@, b@).take(i as int),
    {
        out.push(a[i].plus(b[i]));
        assert(out@ =~= added(a@, b@).take(i + 1));
    }
    assert(out@ =~= added(a@, b@));
    out
}

/// Adding number by number adds row by row.
pub proof fn lemma_added_rows<T: Scalar>(
    a: Seq<T>,
    b: Seq<T>,
    cols: nat,
    ra: Seq<Seq<T>>,
    rb: Seq<Seq<T>>,
)
    requires
        holds_rows(a, cols, ra),
        holds_rows(b, cols, rb),
        ra.len() == rb.len(),
    ensures
        holds_rows(added(a, b), cols, added_rows(ra, rb)),
{
    assert forall|t: int| 0 <= t < ra.len() implies #[trigger] row_of(added(a, b), cols as int, t)
        == added_rows(ra, rb)[t] by {
        lemma_row_index(ra.len() as int, cols as int, t);
        assert(row_of(a, cols as int, t) == ra[t]);
        assert(row_of(b, cols as int, t) == rb[t]);
        assert(row_of(added(a, b), cols as int, t) =~= added(ra[t], rb[t]));
    }
}

} // verus!
