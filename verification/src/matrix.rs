//! A dense row-major matrix of plain values.

use vstd::prelude::*;
use crate::error::RustyAIError;

verus! {

/// A dense matrix stored row by row.
pub struct Matrix<T> {
    n_rows: usize,
    n_cols: usize,
    data: Vec<T>,
}

impl<T> Matrix<T> {
    /// The number of rows.
    pub closed spec fn spec_rows(&self) -> nat {
        self.n_rows as nat
    }

    /// The number of columns.
    pub closed spec fn spec_cols(&self) -> nat {
        self.n_cols as nat
    }

    /// The entries row by row.
    pub closed spec fn spec_data(&self) -> Seq<T> {
        self.data@
    }

    /// The shape is consistent with the stored entries.
    pub open spec fn wf(&self) -> bool {
        self.spec_data().len() == self.spec_rows() * self.spec_cols()
    }

    /// The entry at row `r`, column `c`.
    pub open spec fn at(&self, r: int, c: int) -> T {
        self.spec_data()[r * self.spec_cols() + c]
    }

    /// Builds a `rows` x `cols` matrix from its entries row by row; the
    /// number of entries must be `rows * cols`, else `InvalidShape`.
    pub fn from_shape_vec(rows: usize, cols: usize, data: Vec<T>) -> (r: Result<Self, RustyAIError>)
        ensures
            r is Ok <==> data@.len() == rows * cols,
            r matches Err(e) ==> e is InvalidShape,
            r matches Ok(m) ==> m.wf() && m.spec_rows() == rows && m.spec_cols() == cols && m.spec_data() == data@,
    {
        let len = data.len();
        let ok = match rows.checked_mul(cols) {
            Some(size) => len == size,
            None => false,
        };
        if !ok {
            return Err(RustyAIError::InvalidShape {
                expected: String::from_str("rows * cols entries"),
                got: String::from_str("a different number of entries"),
            });
        }
        Ok(Matrix { n_rows: rows, n_cols: cols, data })
    }

    /// The number of rows.
    pub fn nrows(&self) -> (r: usize)
        ensures
            r == self.spec_rows(),
    {
        self.n_rows
    }

    /// The number of columns.
    pub fn ncols(&self) -> (r: usize)
        ensures
            r == self.spec_cols(),
    {
        self.n_cols
    }

    /// The entries row by row.
    pub fn data(&self) -> (r: &Vec<T>)
        ensures
            r@ == self.spec_data(),
    {
        &self.data
    }

    /// The entry at row `r`, column `c`.
    pub fn get(&self, r: usize, c: usize) -> (v: &T)
        requires
            self.wf(),
            r < self.spec_rows(),
            c < self.spec_cols(),
        ensures
            *v == self.at(r as int, c as int),
    {
        let len = self.data.len();
        proof {
            lemma_index_in_bounds(r as int, c as int, self.n_rows as int, self.n_cols as int);
        }
        &self.data[r * self.n_cols + c]
    }
}

/// Row-major indexing stays inside the entries.
pub proof fn lemma_index_in_bounds(r: int, c: int, rows: int, cols: int)
    requires
        0 <= r < rows,
        0 <= c < cols,
    ensures
        0 <= r * cols + c < rows * cols,
        r * cols + c + 1 <= rows * cols,
{
    assert(r * cols + c < (r + 1) * cols) by (nonlinear_arith)
        requires c < cols;
    assert((r + 1) * cols <= rows * cols) by (nonlinear_arith)
        requires r + 1 <= rows, cols >= 0;
    assert(0 <= r * cols) by (nonlinear_arith)
        requires r >= 0, cols >= 0;
}

} // verus!
