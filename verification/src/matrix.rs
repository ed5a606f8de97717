//! Dense row-major matrices of exact rationals.
use vstd::prelude::*;
use vstd::arithmetic::div_mod::*;

use crate::error::Error;
use crate::rat::{Q, Rat, q_nonneg};

verus! {

/// Ghost shape and contents of a matrix.
#[verifier::ext_equal]
pub ghost struct MatV {
    pub rows: int,
    pub cols: int,
    pub entries: Seq<Rat>,
}

impl MatV {
    /// The entry in row `i`, column `j`, as a ghost fraction.
    pub open spec fn at(self, i: int, j: int) -> Q
        recommends
            0 <= i < self.rows,
            0 <= j < self.cols,
    {
        self.entries[i * self.cols + j]@
    }

    pub open spec fn wf(self) -> bool {
        &&& self.rows >= 0
        &&& self.cols >= 0
        &&& self.entries.len() == self.rows * self.cols
        &&& forall|k: int|
            0 <= k < self.entries.len() ==> (#[trigger] self.entries[k]).wf()
    }

    /// Every entry is non-negative.
    pub open spec fn nonneg(self) -> bool {
        forall|k: int| 0 <= k < self.entries.len() ==> q_nonneg(#[trigger] self.entries[k]@)
    }

    /// Square with entries symmetric about the diagonal.
    pub open spec fn symmetric(self) -> bool {
        self.rows == self.cols && forall|i: int, j: int|
            0 <= i < self.rows && 0 <= j < self.rows ==> #[trigger] self.at(i, j) == self.at(
                j,
                i,
            )
    }
}

/// A row index and a column index select one cell of the flat storage.
pub proof fn lemma_index_bound(i: int, j: int, rows: int, cols: int)
    requires
        0 <= i < rows,
        0 <= j < cols,
    ensures
        0 <= i * cols + j < rows * cols,
{
    assert(0 <= i * cols + j && i * cols + j < rows * cols) by (nonlinear_arith)
        requires
            0 <= i < rows,
            0 <= j < cols,
    ;
}

/// A samples-by-taxa (or taxa-by-taxa) matrix of exact rationals, stored in
/// row-major order. Invariant ([`Matrix::wf`]): the storage holds exactly
/// `rows * cols` well-formed rationals.
#[derive(Debug)]
pub struct Matrix {
    pub rows: usize,
    pub cols: usize,
    pub data: Vec<Rat>,
}

impl View for Matrix {
    type V = MatV;

    open spec fn view(&self) -> MatV {
        MatV { rows: self.rows as int, cols: self.cols as int, entries: self.data@ }
    }
}

impl Matrix {
    pub open spec fn wf(self) -> bool {
        self@.wf()
    }

    /// Builds a matrix from a flat row-major vector; fails with
    /// `InputShapeMismatch` when the vector's length is not `rows * cols`.
    pub fn from_flat(rows: usize, cols: usize, data: Vec<Rat>) -> (r: Result<Matrix, Error>)
        requires
            forall|k: int| 0 <= k < data@.len() ==> (#[trigger] data@[k]).wf(),
        ensures
            match r {
                Ok(m) => m.wf() && m@ == (MatV {
                    rows: rows as int,
                    cols: cols as int,
                    entries: data@,
                }) && rows as int * cols as int == data@.len(),
                Err(e) => e == Error::InputShapeMismatch && rows as int * cols as int
                    != data@.len(),
            },
    {
        let len = data.len();
        let fit: bool = if rows == 0 || cols == 0 {
            proof {
                assert(rows as int * cols as int == 0) by (nonlinear_arith)
                    requires
                        rows == 0 || cols == 0,
                ;
            }
            len == 0
        } else {
            proof {
                lemma_fundamental_div_mod(len as int, cols as int);
                if len % cols == 0 && len / cols == rows {
                    assert(rows as int * cols as int == len as int) by (nonlinear_arith)
                        requires
                            len as int == cols as int * (len as int / cols as int) + (len as int
                                % cols as int),
                            len as int % cols as int == 0,
                            len as int / cols as int == rows as int,
                    ;
                }
                if rows as int * cols as int == len as int {
                    lemma_div_multiples_vanish(rows as int, cols as int);
                    lemma_mod_multiples_basic(rows as int, cols as int);
                    assert(cols as int * rows as int == len as int) by (nonlinear_arith)
                        requires
                            rows as int * cols as int == len as int,
                    ;
                }
            }
            len % cols == 0 && len / cols == rows
        };
        if fit {
            Ok(Matrix { rows, cols, data })
        } else {
            Err(Error::InputShapeMismatch)
        }
    }

    /// Builds a matrix of whole numbers from a flat row-major vector.
    pub fn from_ints(rows: usize, cols: usize, vals: &Vec<i64>) -> (r: Result<Matrix, Error>)
        ensures
            match r {
                Ok(m) => {
                    &&& m.wf()
                    &&& m@.rows == rows as int
                    &&& m@.cols == cols as int
                    &&& m@.entries.len() == vals@.len()
                    &&& forall|k: int|
                        0 <= k < vals@.len() ==> #[trigger] m@.entries[k]@ == (Q {
                            n: vals@[k] as int,
                            d: 1,
                        })
                    &&& rows as int * cols as int == vals@.len()
                },
                Err(e) => e == Error::InputShapeMismatch && rows as int * cols as int
                    != vals@.len(),
            },
    {
        let mut data: Vec<Rat> = Vec::new();
        let mut k: usize = 0;
        while k < vals.len()
            invariant
                k <= vals@.len(),
                data@.len() == k as int,
                forall|t: int| 0 <= t < k as int ==> (#[trigger] data@[t]).wf(),
                forall|t: int|
                    0 <= t < k as int ==> #[trigger] data@[t]@ == (Q { n: vals@[t] as int, d: 1 }),
            decreases vals@.len() - k,
        {
            data.push(Rat::from_int(vals[k]));
            k += 1;
        }
        Matrix::from_flat(rows, cols, data)
    }

    pub fn get(&self, i: usize, j: usize) -> (r: Rat)
        requires
            self.wf(),
            i < self@.rows,
            j < self@.cols,
        ensures
            r.wf(),
            r@ == self@.at(i as int, j as int),
            r == self@.entries[i as int * self@.cols + j],
    {
        let len = self.data.len();
        proof {
            lemma_index_bound(i as int, j as int, self@.rows, self@.cols);
            assert((i as int * self@.cols + j as int) < len as int);
            assert(0 <= i as int * self@.cols) by (nonlinear_arith)
                requires
                    0 <= i as int,
                    0 <= self@.cols,
            ;
        }
        self.data[i * self.cols + j]
    }

    /// Whether every entry is non-negative, as abundance matrices must be.
    pub fn all_nonneg(&self) -> (r: bool)
        requires
            self.wf(),
        ensures
            r == self@.nonneg(),
    {
        let mut k: usize = 0;
        while k < self.data.len()
            invariant
                self.wf(),
                k <= self@.entries.len(),
                forall|t: int| 0 <= t < k as int ==> q_nonneg(#[trigger] self@.entries[t]@),
            decreases self@.entries.len() - k,
        {
            if self.data[k].num < 0 {
                assert(!q_nonneg(self@.entries[k as int]@));
                return false;
            }
            k += 1;
        }
        true
    }
}

} // verus!
