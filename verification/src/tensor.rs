//! Dense matrices and views of them, row by row.

use vstd::prelude::*;
use vstd::slice::slice_subrange;
use crate::error::{NseError, NseResult};
use crate::scalar::Scalar;

verus! {

/// A matrix of shape `[rows, cols]` that owns its numbers, row by row.
#[derive(Debug, Clone, PartialEq)]
pub struct Matrix<T> {
    pub rows: usize,
    pub cols: usize,
    pub data: Vec<T>,
}

/// A borrowed matrix.
#[derive(Debug, Clone, Copy)]
pub struct MatrixView<'a, T> {
    pub rows: usize,
    pub cols: usize,
    pub data: &'a [T],
}

/// Row `r` of numbers that lie in rows of `cols`.
pub open spec fn row_of<T>(data: Seq<T>, cols: int, r: int) -> Seq<T> {
    data.subrange(r * cols, (r + 1) * cols)
}

/// Where the cells and rows of a matrix lie.
pub proof fn lemma_cell_index(rows: int, cols: int, r: int, c: int)
    requires
        0 <= r < rows,
        0 <= c < cols,
    ensures
        0 <= r * cols,
        r * cols + c < (r + 1) * cols,
        (r + 1) * cols <= rows * cols,
{
    lemma_row_index(rows, cols, r);
}

/// Where the rows of a matrix lie.
pub proof fn lemma_row_index(rows: int, cols: int, r: int)
    requires
        0 <= r < rows,
        0 <= cols,
    ensures
        0 <= r * cols,
        (r + 1) * cols == r * cols + cols,
        (r + 1) * cols <= rows * cols,
{
    assert(0 <= r * cols) by (nonlinear_arith)
        requires
            0 <= r,
            0 <= cols,
    ;
    assert((r + 1) * cols == r * cols + cols) by (nonlinear_arith);
    assert((r + 1) * cols <= rows * cols) by (nonlinear_arith)
        requires
            r + 1 <= rows,
            0 <= cols,
    ;
}

/// The cell at `(r, c)` is the one that `r * cols + c` names and no other.
pub proof fn lemma_cell_unique(cols: int, r: int, c: int, s: int, d: int)
    requires
        0 <= c < cols,
        0 <= d < cols,
        r * cols + c == s * cols + d,
    ensures
        r == s,
        c == d,
{
    assert(r == s) by (nonlinear_arith)
        requires
            0 <= c < cols,
            0 <= d < cols,
            r * cols + c == s * cols + d,
    ;
}

/// A copy of the numbers from `from` up to `to`.
pub fn copy_range<T: Copy>(data: &[T], from: usize, to: usize) -> (r: Vec<T>)
    requires
        from <= to <= data@.len(),
    ensures
        r@ == data@.subrange(from as int, to as int),
{
    let mut out: Vec<T> = Vec::with_capacity(to - from);
    for i in from..to
        invariant
            from <= to <= data@.len(),
            out@ == data@.subrange(from as int, i as int),
    {
        out.push(data[i]);
        assert(out@ =~= data@.subrange(from as int, i + 1));
    }
    out
}

/// A copy of all numbers.
pub fn copy_all<T: Copy>(data: &[T]) -> (r: Vec<T>)
    ensures
        r@ == data@,
{
    let r = copy_range(data, 0, data.len());
    assert(r@ =~= data@);
    r
}

/// `n` times the same value.
pub fn filled<T: Copy>(n: usize, value: T) -> (r: Vec<T>)
    ensures
        r@ == Seq::new(n as nat, |i: int| value),
{
    let mut out: Vec<T> = Vec::with_capacity(n);
    for i in 0..n
        invariant
            out@ == Seq::new(i as nat, |j: int| value),
    {
        out.push(value);
        assert(out@ =~= Seq::new((i + 1) as nat, |j: int| value));
    }
    out
}

fn one_size(n: usize) -> (r: Vec<usize>)
    ensures
        r@ == seq![n],
{
    let mut v: Vec<usize> = Vec::new();
    v.push(n);
    assert(v@ =~= seq![n]);
    v
}

impl<T> Matrix<T> {
    /// Whether there is one number for each cell.
    pub open spec fn wf(&self) -> bool {
        self.data@.len() == self.rows * self.cols
    }

    /// The number at `(r, c)`.
    pub open spec fn cell(&self, r: int, c: int) -> T {
        self.data@[r * self.cols + c]
    }

    /// Row `r`.
    pub open spec fn row_seq(&self, r: int) -> Seq<T> {
        row_of(self.data@, self.cols as int, r)
    }
}

impl<T: Scalar> Matrix<T> {
    /// A matrix of zeros.
    pub fn zeros(rows: usize, cols: usize) -> (m: Self)
        requires
            rows * cols <= usize::MAX,
        ensures
            m.wf(),
            m.rows == rows,
            m.cols == cols,
            m.data@ == Seq::new((rows * cols) as nat, |i: int| T::spec_zero()),
    {
        Matrix { rows, cols, data: filled(rows * cols, T::zero()) }
    }
}

impl<T: Copy> Matrix<T> {
    /// A matrix of the given numbers, if there are as many as the shape asks for.
    pub fn from_vec(rows: usize, cols: usize, data: Vec<T>) -> (r: NseResult<Self>)
        requires
            rows * cols <= usize::MAX,
        ensures
            data@.len() == rows * cols ==> (r matches Ok(m) && m.wf() && m.rows == rows && m.cols
                == cols && m.data@ == data@),
            data@.len() != rows * cols ==> (r matches Err(
                NseError::ShapeMismatch { expected, got },
            ) && expected@ == seq![(rows * cols) as usize] && got@ == seq![data@.len() as usize]),
    {
        if data.len() != rows * cols {
            return Err(
                NseError::ShapeMismatch {
                    expected: one_size(rows * cols),
                    got: one_size(data.len()),
                },
            );
        }
        Ok(Matrix { rows, cols, data })
    }

    /// The number of cells.
    pub fn len(&self) -> (n: usize)
        requires
            self.rows * self.cols <= usize::MAX,
        ensures
            n == self.rows * self.cols,
    {
        self.rows * self.cols
    }

    /// Whether there is no cell.
    pub fn is_empty(&self) -> (b: bool)
        requires
            self.rows * self.cols <= usize::MAX,
        ensures
            b == (self.rows == 0 || self.cols == 0),
    {
        assert(self.rows * self.cols == 0 <==> self.rows == 0 || self.cols == 0)
            by (nonlinear_arith)
            requires
                self.rows >= 0,
                self.cols >= 0,
        ;
        self.len() == 0
    }

    /// The number at `(row, col)`.
    pub fn get(&self, row: usize, col: usize) -> (r: NseResult<T>)
        requires
            self.wf(),
            row * self.cols + col <= usize::MAX,
        ensures
            row < self.rows && col < self.cols ==> r == Ok::<T, NseError>(
                self.cell(row as int, col as int),
            ),
            !(row < self.rows && col < self.cols) ==> r == Err::<T, NseError>(
                NseError::IndexOutOfBounds {
                    index: (row * self.cols + col) as usize,
                    len: (self.rows * self.cols) as usize,
                },
            ),
    {
        assert(self.data.len() == self.data@.len());
        proof {
            assert(0 <= row * self.cols) by (nonlinear_arith)
                requires
                    0 <= row,
                    0 <= self.cols,
            ;
        }
        if row >= self.rows || col >= self.cols {
            return Err(
                NseError::IndexOutOfBounds { index: row * self.cols + col, len: self.len() },
            );
        }
        proof {
            lemma_cell_index(self.rows as int, self.cols as int, row as int, col as int);
        }
        Ok(self.data[row * self.cols + col])
    }

    /// The number at `(row, col)`, to be changed.
    pub fn get_mut(&mut self, row: usize, col: usize) -> (r: NseResult<&mut T>)
        requires
            old(self).wf(),
            row * old(self).cols + col <= usize::MAX,
        ensures
            final(self).rows == old(self).rows,
            final(self).cols == old(self).cols,
            row < old(self).rows && col < old(self).cols ==> (r matches Ok(x) && *x == old(
                self,
            ).cell(row as int, col as int) && final(self).data@ == old(self).data@.update(
                row * old(self).cols + col,
                *final(x),
            )),
            !(row < old(self).rows && col < old(self).cols) ==> (r matches Err(
                NseError::IndexOutOfBounds { index, len },
            ) && index == row * old(self).cols + col && len == old(self).rows * old(self).cols
                && final(self).data@ == old(self).data@),
    {
        assert(self.data.len() == self.data@.len());
        proof {
            assert(0 <= row * self.cols) by (nonlinear_arith)
                requires
                    0 <= row,
                    0 <= self.cols,
            ;
        }
        if row >= self.rows || col >= self.cols {
            return Err(
                NseError::IndexOutOfBounds { index: row * self.cols + col, len: self.len() },
            );
        }
        proof {
            lemma_cell_index(self.rows as int, self.cols as int, row as int, col as int);
        }
        let at: usize = row * self.cols + col;
        Ok(&mut self.data[at])
    }

    /// A view of the whole matrix.
    pub fn view(&self) -> (v: MatrixView<'_, T>)
        ensures
            v.rows == self.rows,
            v.cols == self.cols,
            v.data@ == self.data@,
    {
        MatrixView { rows: self.rows, cols: self.cols, data: &self.data }
    }

    /// A view of one row.
    pub fn row(&self, row: usize) -> (r: NseResult<&[T]>)
        requires
            self.wf(),
        ensures
            row < self.rows ==> (r matches Ok(s) && s@ == self.row_seq(row as int)),
            row >= self.rows ==> r == Err::<&[T], NseError>(
                NseError::IndexOutOfBounds { index: row, len: self.rows },
            ),
    {
        row_slice(self.rows, self.cols, &self.data, row)
    }

    /// The matrix with rows and columns exchanged.
    pub fn transposed(&self) -> (m: Matrix<T>)
        requires
            self.wf(),
        ensures
            m.wf(),
            m.rows == self.cols,
            m.cols == self.rows,
            forall|r: int, c: int|
                0 <= r < self.rows && 0 <= c < self.cols ==> #[trigger] m.cell(c, r) == self.cell(
                    r,
                    c,
                ),
    {
        assert(self.data.len() == self.data@.len());
        let mut data: Vec<T> = Vec::with_capacity(self.data.len());
        let rows: usize = self.rows;
        let cols: usize = self.cols;
        assert(0 * rows == 0) by (nonlinear_arith);
        for c in 0..cols
            invariant
                self.wf(),
                rows == self.rows,
                cols == self.cols,
                data@.len() == c * rows,
                forall|r: int, d: int|
                    0 <= r < rows && 0 <= d < c ==> data@[#[trigger] (d * rows + r)] == self.cell(
                        r,
                        d,
                    ),
        {
            for r in 0..rows
                invariant
                    self.wf(),
                    rows == self.rows,
                    cols == self.cols,
                    c < cols,
                    data@.len() == c * rows + r,
                    forall|s: int, d: int|
                        0 <= s < rows && 0 <= d < c ==> data@[#[trigger] (d * rows + s)]
                            == self.cell(s, d),
                    forall|s: int| 0 <= s < r ==> data@[c * rows + s] == self.cell(s, c as int),
            {
                proof {
                    lemma_cell_index(rows as int, cols as int, r as int, c as int);
                    assert(0 <= r * cols) by (nonlinear_arith)
                        requires
                            0 <= r,
                            0 <= cols,
                    ;
                    assert(self.data.len() == self.data@.len());
                }
                let ghost before = data@;
                data.push(self.data[r * cols + c]);
                assert forall|s: int, d: int| 0 <= s < rows && 0 <= d < c implies data@[#[trigger] (d
                    * rows + s)] == self.cell(s, d) by {
                    lemma_cell_index(c as int, rows as int, d, s);
                    assert(data@[d * rows + s] == before[d * rows + s]);
                }
            }
            assert((c + 1) * rows == c * rows + rows) by (nonlinear_arith);
            assert forall|r: int, d: int| 0 <= r < rows && 0 <= d < c + 1 implies data@[#[trigger] (d
                * rows + r)] == self.cell(r, d) by {
                if d == c {
                    assert(data@[c * rows + r] == self.cell(r, c as int));
                }
            }
        }
        assert(cols * rows == rows * cols) by (nonlinear_arith);
        let m = Matrix { rows: cols, cols: rows, data };
        assert forall|r: int, c: int| 0 <= r < self.rows && 0 <= c < self.cols implies
            #[trigger] m.cell(c, r) == self.cell(r, c) by {
            assert(data@[c * rows + r] == self.cell(r, c));
        }
        m
    }
}

fn row_slice<'a, T>(rows: usize, cols: usize, data: &'a [T], row: usize) -> (r: NseResult<&'a [T]>)
    requires
        data@.len() == rows * cols,
    ensures
        row < rows ==> (r matches Ok(s) && s@ == row_of(data@, cols as int, row as int)),
        row >= rows ==> r == Err::<&[T], NseError>(
            NseError::IndexOutOfBounds { index: row, len: rows },
        ),
{
    if row >= rows {
        return Err(NseError::IndexOutOfBounds { index: row, len: rows });
    }
    proof {
        lemma_row_index(rows as int, cols as int, row as int);
        assert(data.len() == data@.len());
    }
    Ok(slice_subrange(data, row * cols, (row + 1) * cols))
}

impl<'a, T: Copy> MatrixView<'a, T> {
    /// Whether there is one number for each cell.
    pub open spec fn wf(&self) -> bool {
        self.data@.len() == self.rows * self.cols
    }

    /// A view of the given numbers, if there are as many as the shape asks for.
    pub fn from_slice(rows: usize, cols: usize, data: &'a [T]) -> (r: NseResult<Self>)
        requires
            rows * cols <= usize::MAX,
        ensures
            data@.len() == rows * cols ==> (r matches Ok(m) && m.wf() && m.rows == rows && m.cols
                == cols && m.data@ == data@),
            data@.len() != rows * cols ==> (r matches Err(
                NseError::ShapeMismatch { expected, got },
            ) && expected@ == seq![(rows * cols) as usize] && got@ == seq![data@.len() as usize]),
    {
        if data.len() != rows * cols {
            return Err(
                NseError::ShapeMismatch {
                    expected: one_size(rows * cols),
                    got: one_size(data.len()),
                },
            );
        }
        Ok(MatrixView { rows, cols, data })
    }

    /// A view of one row.
    pub fn row(&self, row: usize) -> (r: NseResult<&'a [T]>)
        requires
            self.wf(),
        ensures
            row < self.rows ==> (r matches Ok(s) && s@ == row_of(
                self.data@,
                self.cols as int,
                row as int,
            )),
            row >= self.rows ==> r == Err::<&[T], NseError>(
                NseError::IndexOutOfBounds { index: row, len: self.rows },
            ),
    {
        row_slice(self.rows, self.cols, self.data, row)
    }
}

/// Exchanging rows and columns twice gives the matrix back: if every cell of `b`
/// is the mirrored cell of `a`, and every cell of `c` the mirrored cell of `b`,
/// then `c` has the numbers of `a`.
pub proof fn law_transpose_involution<T>(a: Matrix<T>, b: Matrix<T>, c: Matrix<T>)
    requires
        a.wf(),
        b.wf(),
        c.wf(),
        b.rows == a.cols,
        b.cols == a.rows,
        c.rows == b.cols,
        c.cols == b.rows,
        forall|i: int, j: int|
            0 <= i < a.rows && 0 <= j < a.cols ==> #[trigger] b.cell(j, i) == a.cell(i, j),
        forall|i: int, j: int|
            0 <= i < b.rows && 0 <= j < b.cols ==> #[trigger] c.cell(j, i) == b.cell(i, j),
    ensures
        c.data@ == a.data@,
{
    assert forall|k: int| 0 <= k < a.data@.len() implies c.data@[k] == a.data@[k] by {
        let cols = a.cols as int;
        assert(cols > 0) by (nonlinear_arith)
            requires
                0 <= k < a.rows * cols,
                cols >= 0,
        ;
        let i = k / cols;
        let j = k % cols;
        assert(k == i * cols + j && 0 <= j < cols && 0 <= i < a.rows) by (nonlinear_arith)
            requires
                0 <= k < a.rows * cols,
                cols > 0,
                i == k / cols,
                j == k % cols,
        ;
        assert(c.cell(i, j) == b.cell(j, i));
        assert(b.cell(j, i) == a.cell(i, j));
    }
    assert(c.data@ =~= a.data@);
}

} // verus!
