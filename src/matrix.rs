//! Square score matrices, stored in `ndarray`'s two-dimensional arrays.
use vstd::prelude::*;

use ndarray::Array2;

verus! {

/// A two-dimensional array of counts. The array type itself cannot be declared
/// to the verifier (its storage parameter is bounded by an ndarray trait), so it
/// is held here, and its cells are known through `matrix_rows`.
#[verifier::external_body]
pub struct ScoreMatrix {
    cells: Array2<usize>,
}

/// The cells of a matrix, row by row.
pub uninterp spec fn matrix_rows(m: ScoreMatrix) -> Seq<Seq<usize>>;

/// An `n` by `n` matrix.
pub open spec fn is_square(rows: Seq<Seq<usize>>, n: int) -> bool {
    rows.len() == n && forall|i: int| 0 <= i < n ==> #[trigger] rows[i].len() == n
}

impl ScoreMatrix {
    /// Relies on `Array2::from_elem`: an `n` by `n` array of zeros.
    #[verifier::external_body]
    pub fn zeros(n: usize) -> (r: ScoreMatrix)
        requires
            n * n <= isize::MAX,
        ensures
            matrix_rows(r) == Seq::new(n as nat, |i: int| Seq::new(n as nat, |j: int| 0usize)),
    {
        ScoreMatrix { cells: Array2::from_elem((n, n), 0) }
    }

    /// Relies on `ArrayBase::dim`: the number of rows and of columns.
    #[verifier::external_body]
    pub fn dim(&self) -> (r: (usize, usize))
        ensures
            r.0 == matrix_rows(*self).len(),
            forall|i: int| 0 <= i < r.0 ==> #[trigger] matrix_rows(*self)[i].len() == r.1,
    {
        self.cells.dim()
    }

    /// Relies on indexing an `Array2`: the cell at row `i`, column `j`.
    #[verifier::external_body]
    pub fn get(&self, i: usize, j: usize) -> (r: usize)
        requires
            i < matrix_rows(*self).len(),
            j < matrix_rows(*self)[i as int].len(),
        ensures
            r == matrix_rows(*self)[i as int][j as int],
    {
        self.cells[(i, j)]
    }

    /// Relies on indexing an `Array2` mutably: stores `v` at row `i`, column `j`.
    #[verifier::external_body]
    pub fn set(&mut self, i: usize, j: usize, v: usize)
        requires
            i < matrix_rows(*old(self)).len(),
            j < matrix_rows(*old(self))[i as int].len(),
        ensures
            matrix_rows(*final(self)) == matrix_rows(*old(self)).update(
                i as int,
                matrix_rows(*old(self))[i as int].update(j as int, v),
            ),
    {
        self.cells[(i, j)] = v;
    }
}

} // verus!
