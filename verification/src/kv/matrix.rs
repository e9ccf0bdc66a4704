//! Two-dimensional tensors, held by `ndarray`.
//!
//! A cell is the 32-bit pattern of one tensor element. Nothing in the cache
//! logic looks inside a cell: rows are appended, dropped, copied and counted.

use vstd::prelude::*;

verus! {

/// A matrix of 32-bit cells. The storage is an `ndarray::Array2<u32>`.
#[derive(Debug)]
#[verifier::external_body]
pub struct Matrix {
    cells: ndarray::Array2<u32>,
}

/// The rows that a matrix holds, top to bottom, each row left to right.
pub uninterp spec fn matrix_rows(m: Matrix) -> Seq<Seq<u32>>;

/// The number of columns of a matrix, which a matrix without rows has too.
pub uninterp spec fn matrix_cols(m: Matrix) -> nat;

/// The larger of an axis length and one: what an axis contributes to the
/// product of the non-zero axis lengths.
pub open spec fn axis_factor(n: nat) -> nat {
    if n == 0 {
        1
    } else {
        n
    }
}

/// Whether storage of this shape can exist: the product of the non-zero axis
/// lengths and the size in bytes both stay within `isize::MAX`.
pub open spec fn shape_fits(rows: nat, cols: nat) -> bool {
    &&& axis_factor(rows) * axis_factor(cols) <= isize::MAX
    &&& rows * cols * 4 <= isize::MAX
}

/// A shape that fits has no axis longer than `isize::MAX`.
pub proof fn lemma_fitting_cols(rows: nat, cols: nat)
    requires
        shape_fits(rows, cols),
    ensures
        cols <= isize::MAX,
{
    let r = axis_factor(rows);
    let c = axis_factor(cols);
    assert(c <= r * c) by (nonlinear_arith)
        requires
            r >= 1,
            c >= 0,
    ;
}

/// Whether `count` cells fill a matrix of this shape: the number matches, and
/// the product of the non-zero axis lengths stays within `isize::MAX`.
pub open spec fn shape_takes(rows: nat, cols: nat, count: nat) -> bool {
    &&& rows * cols == count
    &&& axis_factor(rows) * axis_factor(cols) <= isize::MAX
}

/// All rows have the given length.
pub open spec fn rectangular(rows: Seq<Seq<u32>>, cols: nat) -> bool {
    forall|i: int| 0 <= i < rows.len() ==> (#[trigger] rows[i]).len() == cols
}

/// Row `i` of a row-major sequence of cells.
pub open spec fn flat_row(cells: Seq<u32>, cols: nat, i: int) -> Seq<u32> {
    cells.subrange(i * cols, i * cols + cols)
}

/// The rows of a row-major sequence of cells.
pub open spec fn rows_of_flat(cells: Seq<u32>, rows: nat, cols: nat) -> Seq<Seq<u32>> {
    Seq::new(rows, |i: int| flat_row(cells, cols, i))
}

/// A row of `cols` cells that are all zero.
pub open spec fn zero_row(cols: nat) -> Seq<u32> {
    Seq::new(cols, |j: int| 0u32)
}

/// `rows` rows of `cols` cells that are all zero.
pub open spec fn zero_rows(rows: nat, cols: nat) -> Seq<Seq<u32>> {
    Seq::new(rows, |i: int| zero_row(cols))
}

/// Calls `ArrayBase::shape`. Claims that the two lengths it gives are the
/// number of rows and the number of columns, and that every row is as long as
/// the second says.
#[verifier::external_body]
fn array_shape(m: &Matrix) -> (s: (usize, usize))
    ensures
        s.0 == matrix_rows(*m).len(),
        s.1 == matrix_cols(*m),
        rectangular(matrix_rows(*m), s.1 as nat),
{
    (m.cells.shape()[0], m.cells.shape()[1])
}

/// Calls `Array::from_shape_vec` with a row-major shape. Claims that it
/// succeeds exactly when the vector has as many cells as the shape asks for
/// and the product of the non-zero axis lengths fits `isize`, and that the
/// rows are then consecutive runs of the vector.
#[verifier::external_body]
fn array_from_shape_vec(rows: usize, cols: usize, cells: Vec<u32>) -> (out: Option<Matrix>)
    ensures
        out is Some == shape_takes(rows as nat, cols as nat, cells@.len()),
        out is Some ==> matrix_rows(out->0) == rows_of_flat(cells@, rows as nat, cols as nat),
        out is Some ==> matrix_cols(out->0) == cols,
{
    match ndarray::Array2::from_shape_vec((rows, cols), cells) {
        Ok(cells) => Some(Matrix { cells }),
        Err(_) => None,
    }
}

/// Calls `ArrayBase::zeros`. Claims that every cell is zero. Shapes on which
/// it panics, or for which no storage can be allocated, are left out.
#[verifier::external_body]
fn array_zeros(rows: usize, cols: usize) -> (m: Matrix)
    requires
        shape_fits(rows as nat, cols as nat),
    ensures
        matrix_rows(m) == zero_rows(rows as nat, cols as nat),
        matrix_cols(m) == cols,
{
    Matrix { cells: ndarray::Array2::zeros((rows, cols)) }
}

/// Calls `Array::append` along the row axis. Claims that it succeeds exactly
/// when both matrices have the same number of columns; the rows of the second
/// then follow those of the first, and otherwise nothing changes. Results for
/// which no storage can be allocated are left out.
#[verifier::external_body]
fn array_append(m: &mut Matrix, more: &Matrix) -> (done: bool)
    requires
        shape_fits(
            matrix_rows(*old(m)).len() + matrix_rows(*more).len(),
            matrix_cols(*old(m)),
        ),
    ensures
        done == (matrix_cols(*old(m)) == matrix_cols(*more)),
        matrix_cols(*final(m)) == matrix_cols(*old(m)),
        matrix_rows(*final(m)) == if done {
            matrix_rows(*old(m)) + matrix_rows(*more)
        } else {
            matrix_rows(*old(m))
        },
{
    m.cells.append(ndarray::Axis(0), more.cells.view()).is_ok()
}

/// Calls `ArrayBase::slice_axis` on the row axis and takes an owned copy of
/// the view. Claims that the copy holds the rows from `start` up to `end`.
/// Bounds on which it panics are left out.
#[verifier::external_body]
fn array_slice_rows(m: &Matrix, start: usize, end: usize) -> (s: Matrix)
    requires
        start <= end <= matrix_rows(*m).len(),
    ensures
        matrix_rows(s) == matrix_rows(*m).subrange(start as int, end as int),
        matrix_cols(s) == matrix_cols(*m),
{
    let view = m.cells.slice_axis(ndarray::Axis(0), ndarray::Slice::from(start..end));
    Matrix { cells: view.to_owned() }
}

/// Calls `ArrayBase::clone`. Claims that the copy holds the same rows.
#[verifier::external_body]
fn array_clone(m: &Matrix) -> (c: Matrix)
    ensures
        matrix_rows(c) == matrix_rows(*m),
        matrix_cols(c) == matrix_cols(*m),
{
    Matrix { cells: m.cells.clone() }
}

/// Calls `ArrayBase::iter` and collects the cells. Claims that they come row
/// by row, which is the logical order that the iterator documents.
#[verifier::external_body]
fn array_iter(m: &Matrix) -> (cells: Vec<u32>)
    ensures
        cells@ == matrix_rows(*m).flatten(),
{
    m.cells.iter().copied().collect()
}

/// Calls `ArrayBase::index_mut` and stores one cell. Claims that only this
/// cell changes. Indices on which it panics are left out.
#[verifier::external_body]
fn array_index_mut(m: &mut Matrix, i: usize, j: usize, cell: u32)
    requires
        i < matrix_rows(*old(m)).len(),
        j < matrix_cols(*old(m)),
    ensures
        matrix_cols(*final(m)) == matrix_cols(*old(m)),
        matrix_rows(*final(m)) == matrix_rows(*old(m)).update(
            i as int,
            matrix_rows(*old(m))[i as int].update(j as int, cell),
        ),
{
    m.cells[[i, j]] = cell;
}

impl Matrix {
    /// The rows, top to bottom.
    pub open spec fn rows(&self) -> Seq<Seq<u32>> {
        matrix_rows(*self)
    }

    /// The number of columns.
    pub open spec fn cols(&self) -> nat {
        matrix_cols(*self)
    }

    /// The number of rows and the number of columns.
    pub fn shape(&self) -> (s: (usize, usize))
        ensures
            s.0 == self.rows().len(),
            s.1 == self.cols(),
            rectangular(self.rows(), self.cols()),
    {
        array_shape(self)
    }

    /// A matrix of the given shape whose cells are all zero.
    pub fn zeros(rows: usize, cols: usize) -> (m: Matrix)
        requires
            shape_fits(rows as nat, cols as nat),
        ensures
            m.rows() == zero_rows(rows as nat, cols as nat),
            m.cols() == cols,
    {
        array_zeros(rows, cols)
    }

    /// The matrix of the given shape that the cells fill row by row, or `None`
    /// when their number does not match the shape or the shape is too large.
    pub fn from_shape_vec(rows: usize, cols: usize, cells: Vec<u32>) -> (out: Option<Matrix>)
        ensures
            out is Some == shape_takes(rows as nat, cols as nat, cells@.len()),
            out is Some ==> out->0.rows() == rows_of_flat(cells@, rows as nat, cols as nat),
            out is Some ==> out->0.cols() == cols,
    {
        array_from_shape_vec(rows, cols, cells)
    }

    /// A copy of the matrix.
    pub fn duplicate(&self) -> (m: Matrix)
        ensures
            m.rows() == self.rows(),
            m.cols() == self.cols(),
    {
        array_clone(self)
    }

    /// All cells, row by row.
    pub fn to_flat(&self) -> (cells: Vec<u32>)
        ensures
            cells@ == self.rows().flatten(),
    {
        array_iter(self)
    }

    /// Puts the rows of `more` below the rows of this matrix.
    pub fn append_rows(&mut self, more: &Matrix)
        requires
            old(self).cols() == more.cols(),
            shape_fits(old(self).rows().len() + more.rows().len(), old(self).cols()),
        ensures
            final(self).rows() == old(self).rows() + more.rows(),
            final(self).cols() == old(self).cols(),
    {
        let _ = array_append(self, more);
    }

    /// A copy of the rows from `start` up to `end`.
    pub fn rows_between(&self, start: usize, end: usize) -> (m: Matrix)
        requires
            start <= end <= self.rows().len(),
        ensures
            m.rows() == self.rows().subrange(start as int, end as int),
            m.cols() == self.cols(),
    {
        array_slice_rows(self, start, end)
    }

    /// Overwrites row `i`.
    pub fn set_row(&mut self, i: usize, row: &Vec<u32>)
        requires
            i < old(self).rows().len(),
            row@.len() == old(self).cols(),
        ensures
            final(self).rows() == old(self).rows().update(i as int, row@),
            final(self).cols() == old(self).cols(),
    {
        let shape: (usize, usize) = array_shape(self);
        let ghost before: Seq<Seq<u32>> = self.rows();
        for j in 0..row.len()
            invariant
                i < before.len(),
                before[i as int].len() == row@.len(),
                self.cols() == row@.len(),
                self.rows().len() == before.len(),
                forall|r: int| 0 <= r < before.len() && r != i ==> self.rows()[r] == before[r],
                self.rows()[i as int].len() == row@.len(),
                forall|c: int| 0 <= c < j ==> self.rows()[i as int][c] == row@[c],
        {
            array_index_mut(self, i, j, row[j]);
        }
        proof {
            assert(self.rows()[i as int] =~= row@);
            assert(self.rows() =~= before.update(i as int, row@));
        }
    }
}

impl Clone for Matrix {
    fn clone(&self) -> (m: Matrix)
        ensures
            m.rows() == self.rows(),
            m.cols() == self.cols(),
    {
        self.duplicate()
    }
}

} // verus!
