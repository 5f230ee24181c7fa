//! Matrices over a [`Field`]: a fixed `rows x cols` grid of scalars with
//! element-wise arithmetic, row-broadcast operations, matrix-vector and
//! matrix-matrix products and transposition.
//!
//! A matrix is stored as rows; every row has exactly `cols` elements, and
//! an empty matrix is canonically `0 x 0`. Dimension mismatches are
//! rejected with [`LinalgError::SizeMismatch`], division by the additive
//! identity with [`LinalgError::DivisionByZero`].

use vstd::prelude::*;
use crate::field::{wf_seq, Field};
use crate::mulspec::{spec_col, spec_matmul, spec_matvec, spec_transpose};
use crate::vector::{
    lemma_sum_take_step, spec_vec_add, spec_vec_div, spec_vec_mul, spec_vec_scl, spec_vec_sub,
    sum_seq, Vector,
};
use crate::LinalgError;

verus! {

/// The column count of a matrix given as rows: that of its first row.
pub open spec fn mat_cols<K: Field>(m: Seq<Seq<K>>) -> nat {
    if m.len() == 0 {
        0
    } else {
        m[0].len()
    }
}

/// Every row has the same length.
pub open spec fn rect<K: Field>(m: Seq<Seq<K>>) -> bool {
    forall|i: int| 0 <= i < m.len() ==> (#[trigger] m[i]).len() == mat_cols(m)
}

/// Every element of every row is a well-formed scalar.
pub open spec fn wf_mat<K: Field>(m: Seq<Seq<K>>) -> bool {
    forall|i: int| 0 <= i < m.len() ==> wf_seq(#[trigger] m[i])
}

/// Row-wise sum of two matrices of equal dimensions.
pub open spec fn spec_mat_add<K: Field>(a: Seq<Seq<K>>, b: Seq<Seq<K>>) -> Seq<Seq<K>> {
    Seq::new(a.len(), |i: int| spec_vec_add(a[i], b[i]))
}

/// Row-wise difference of two matrices of equal dimensions.
pub open spec fn spec_mat_sub<K: Field>(a: Seq<Seq<K>>, b: Seq<Seq<K>>) -> Seq<Seq<K>> {
    Seq::new(a.len(), |i: int| spec_vec_sub(a[i], b[i]))
}

/// Every element multiplied by the scalar `a`.
pub open spec fn spec_mat_scl<K: Field>(m: Seq<Seq<K>>, a: K) -> Seq<Seq<K>> {
    Seq::new(m.len(), |i: int| spec_vec_scl(m[i], a))
}

/// Every element divided by the scalar `a`.
pub open spec fn spec_mat_div<K: Field>(m: Seq<Seq<K>>, a: K) -> Seq<Seq<K>> {
    Seq::new(m.len(), |i: int| spec_vec_div(m[i], a))
}

/// The vector `v` added to every row.
pub open spec fn spec_mat_add_vec<K: Field>(m: Seq<Seq<K>>, v: Seq<K>) -> Seq<Seq<K>> {
    Seq::new(m.len(), |i: int| spec_vec_add(m[i], v))
}

/// The vector `v` subtracted from every row.
pub open spec fn spec_mat_sub_vec<K: Field>(m: Seq<Seq<K>>, v: Seq<K>) -> Seq<Seq<K>> {
    Seq::new(m.len(), |i: int| spec_vec_sub(m[i], v))
}

/// Every row multiplied element-wise by the vector `v`.
pub open spec fn spec_mat_mul_vec_rows<K: Field>(m: Seq<Seq<K>>, v: Seq<K>) -> Seq<Seq<K>> {
    Seq::new(m.len(), |i: int| spec_vec_mul(m[i], v))
}

/// A matrix of scalars whose dimensions are fixed at construction.
pub struct Matrix<K: Field> {
    data: Vec<Vec<K>>,
    rows: usize,
    cols: usize,
}

impl<K: Field> View for Matrix<K> {
    type V = Seq<Seq<K>>;

    closed spec fn view(&self) -> Seq<Seq<K>> {
        Seq::new(self.data@.len(), |i: int| self.data@[i]@)
    }
}

impl<K: Field> Matrix<K> {
    /// The stored dimensions agree with the data.
    spec fn dims_ok(self) -> bool {
        &&& self.rows == self@.len()
        &&& self.cols == mat_cols(self@)
        &&& (self@.len() == 0 ==> self.cols == 0)
    }

    /// The matrix is rectangular, canonical when empty, and all its
    /// elements are well-formed scalars.
    pub closed spec fn wf(self) -> bool {
        &&& self.dims_ok()
        &&& rect(self@)
        &&& wf_mat(self@)
    }

    /// What `wf` guarantees about the view.
    pub proof fn lemma_wf_facts(&self)
        requires
            self.wf(),
        ensures
            rect(self@),
            wf_mat(self@),
    {
    }

    /// A matrix from its rows. Fails exactly when the rows do not all
    /// have one length; an empty row list gives the empty matrix.
    pub fn new(data: Vec<Vec<K>>) -> (r: Result<Self, LinalgError>)
        requires
            forall|i: int| 0 <= i < data@.len() ==> wf_seq((#[trigger] data@[i])@),
        ensures
            r is Ok <==> rect(Seq::new(data@.len(), |i: int| data@[i]@)),
            r is Ok ==> r->Ok_0@ == Seq::new(data@.len(), |i: int| data@[i]@) && r->Ok_0.wf(),
            r is Err ==> r->Err_0 == LinalgError::SizeMismatch,
    {
        let ghost vw = Seq::new(data@.len(), |i: int| data@[i]@);
        let rows = data.len();
        let cols: usize = if rows == 0 {
            0
        } else {
            data[0].len()
        };
        let mut i: usize = 0;
        while i < rows
            invariant
                rows == data@.len(),
                vw == Seq::new(data@.len(), |i: int| data@[i]@),
                cols == mat_cols(vw),
                i <= rows,
                forall|j: int| 0 <= j < i ==> (#[trigger] vw[j]).len() == cols,
            decreases rows - i,
        {
            if data[i].len() != cols {
                proof {
                    assert(vw[i as int].len() != cols);
                }
                return Err(LinalgError::SizeMismatch);
            }
            i = i + 1;
        }
        let m = Matrix { data, rows, cols };
        proof {
            assert(m@ =~= vw);
        }
        Ok(m)
    }

    /// A matrix from rows already known to be rectangular and well-formed.
    pub(crate) fn from_rows(data: Vec<Vec<K>>, rows: usize, cols: usize) -> (r: Self)
        requires
            data@.len() == rows,
            forall|i: int| 0 <= i < data@.len() ==> (#[trigger] data@[i])@.len() == cols,
            forall|i: int| 0 <= i < data@.len() ==> wf_seq((#[trigger] data@[i])@),
            rows == 0 ==> cols == 0,
        ensures
            r@ == Seq::new(data@.len(), |i: int| data@[i]@),
            r@.len() == rows,
            mat_cols(r@) == cols,
            r.wf(),
    {
        let m = Matrix { data, rows, cols };
        proof {
            assert(m@ =~= Seq::new(m.data@.len(), |i: int| m.data@[i]@));
        }
        m
    }

    /// The rows, each a vector of elements.
    pub fn data(&self) -> (r: &Vec<Vec<K>>)
        ensures
            r@.len() == self@.len(),
            forall|i: int| 0 <= i < r@.len() ==> (#[trigger] r@[i])@ == self@[i],
    {
        &self.data
    }

    /// The rows, each a vector of elements.
    pub fn get_data(&self) -> (r: &Vec<Vec<K>>)
        ensures
            r@.len() == self@.len(),
            forall|i: int| 0 <= i < r@.len() ==> (#[trigger] r@[i])@ == self@[i],
    {
        &self.data
    }

    /// The number of rows.
    pub fn rows(&self) -> (r: usize)
        requires
            self.wf(),
        ensures
            r == self@.len(),
    {
        self.rows
    }

    /// The number of rows.
    pub fn get_rows(&self) -> (r: usize)
        requires
            self.wf(),
        ensures
            r == self@.len(),
    {
        self.rows
    }

    /// The number of columns.
    pub fn cols(&self) -> (r: usize)
        requires
            self.wf(),
        ensures
            r == mat_cols(self@),
    {
        self.cols
    }

    /// The number of columns.
    pub fn get_cols(&self) -> (r: usize)
        requires
            self.wf(),
        ensures
            r == mat_cols(self@),
    {
        self.cols
    }

    /// The element in row `i`, column `j`.
    pub fn at(&self, i: usize, j: usize) -> (r: K)
        requires
            self.wf(),
            i < self@.len(),
            j < mat_cols(self@),
        ensures
            r == self@[i as int][j as int],
            r.wf(),
    {
        proof {
            assert(self@[i as int] == self.data@[i as int]@);
        }
        self.data[i][j]
    }

    /// Replace the element in row `i`, column `j`.
    pub(crate) fn set_at(&mut self, i: usize, j: usize, x: K)
        requires
            old(self).wf(),
            i < old(self)@.len(),
            j < mat_cols(old(self)@),
            x.wf(),
        ensures
            final(self).wf(),
            final(self)@ == old(self)@.update(i as int, old(self)@[i as int].update(j as int, x)),
            final(self)@.len() == old(self)@.len(),
            mat_cols(final(self)@) == mat_cols(old(self)@),
    {
        proof {
            assert(self@[i as int] == self.data@[i as int]@);
        }
        self.data[i][j] = x;
        proof {
            assert(self@ =~~= old(self)@.update(
                i as int,
                old(self)@[i as int].update(j as int, x),
            ));
            assert(mat_cols(self@) == mat_cols(old(self)@));
        }
    }

    /// Exchange rows `i` and `k`.
    pub(crate) fn swap_rows(&mut self, i: usize, k: usize)
        requires
            old(self).wf(),
            i < old(self)@.len(),
            k < old(self)@.len(),
        ensures
            final(self).wf(),
            final(self)@ == old(self)@.update(i as int, old(self)@[k as int]).update(
                k as int,
                old(self)@[i as int],
            ),
            final(self)@.len() == old(self)@.len(),
            mat_cols(final(self)@) == mat_cols(old(self)@),
    {
        let ri = clone_row(&self.data[i]);
        let rk = clone_row(&self.data[k]);
        self.data[i] = rk;
        self.data[k] = ri;
        proof {
            assert(self@ =~~= old(self)@.update(i as int, old(self)@[k as int]).update(
                k as int,
                old(self)@[i as int],
            ));
            assert(mat_cols(self@) == mat_cols(old(self)@));
        }
    }

    /// A copy of this matrix.
    pub fn clone_mat(&self) -> (r: Self)
        requires
            self.wf(),
        ensures
            r@ == self@,
            r.wf(),
    {
        let mut data: Vec<Vec<K>> = Vec::new();
        let mut i: usize = 0;
        while i < self.data.len()
            invariant
                self.wf(),
                self.data@.len() == self@.len(),
                forall|j: int| 0 <= j < self@.len() ==> (#[trigger] self.data@[j])@ == self@[j],
                i <= self@.len(),
                data@.len() == i,
                forall|j: int| 0 <= j < i ==> (#[trigger] data@[j])@ == self@[j],
            decreases self@.len() - i,
        {
            let row = clone_row(&self.data[i]);
            data.push(row);
            i = i + 1;
        }
        let r = Matrix { data, rows: self.rows, cols: self.cols };
        proof {
            assert(r@ =~= self@);
        }
        r
    }

    /// The `n x n` identity matrix.
    pub fn identity(n: usize) -> (r: Self)
        ensures
            r@ == spec_identity::<K>(n as nat),
            r.wf(),
    {
        proof {
            K::law_consts();
        }
        let mut data: Vec<Vec<K>> = Vec::new();
        let mut i: usize = 0;
        while i < n
            invariant
                i <= n,
                data@.len() == i,
                forall|j: int| 0 <= j < i ==> (#[trigger] data@[j])@ == spec_identity::<K>(
                    n as nat,
                )[j],
                K::spec_zero().wf(),
                K::spec_one().wf(),
            decreases n - i,
        {
            let mut row: Vec<K> = Vec::new();
            let mut j: usize = 0;
            while j < n
                invariant
                    j <= n,
                    i < n,
                    row@.len() == j,
                    forall|t: int|
                        0 <= t < j ==> row@[t] == (if t == i {
                            K::spec_one()
                        } else {
                            K::spec_zero()
                        }),
                    K::spec_zero().wf(),
                    K::spec_one().wf(),
                decreases n - j,
            {
                if j == i {
                    row.push(K::one());
                } else {
                    row.push(K::zero());
                }
                j = j + 1;
            }
            proof {
                assert(row@ =~= spec_identity::<K>(n as nat)[i as int]);
            }
            data.push(row);
            i = i + 1;
        }
        let r = Matrix { data, rows: n, cols: if n == 0 {
            0
        } else {
            n
        } };
        proof {
            assert(r@ =~= spec_identity::<K>(n as nat));
            assert(rect(r@));
            assert(wf_mat(r@));
        }
        r
    }

    /// Row-wise sum, in place. Fails, leaving the matrix unchanged,
    /// exactly when the dimensions differ.
    pub fn add(&mut self, v: &Matrix<K>) -> (r: Result<(), LinalgError>)
        requires
            old(self).wf(),
            v.wf(),
        ensures
            final(self).wf(),
            r is Ok <==> (old(self)@.len() == v@.len() && mat_cols(old(self)@) == mat_cols(v@)),
            r is Ok ==> final(self)@ == spec_mat_add(old(self)@, v@),
            r is Err ==> final(self)@ == old(self)@ && r->Err_0 == LinalgError::SizeMismatch,
    {
        if self.rows != v.rows || self.cols != v.cols {
            return Err(LinalgError::SizeMismatch);
        }
        let rows = self.rows;
        let cols = self.cols;
        let mut i: usize = 0;
        while i < rows
            invariant
                old(self).wf(),
                v.wf(),
                self.wf(),
                rows == old(self)@.len() == v@.len() == self@.len(),
                cols == mat_cols(old(self)@) == mat_cols(v@) == mat_cols(self@),
                i <= rows,
                forall|j: int| 0 <= j < i ==> self@[j] == spec_mat_add(old(self)@, v@)[j],
                forall|j: int| i <= j < rows ==> self@[j] == old(self)@[j],
            decreases rows - i,
        {
            let mut jj: usize = 0;
            while jj < cols
                invariant
                    old(self).wf(),
                    v.wf(),
                    self.wf(),
                    rows == old(self)@.len() == v@.len() == self@.len(),
                    cols == mat_cols(old(self)@) == mat_cols(v@) == mat_cols(self@),
                    i < rows,
                    jj <= cols,
                    forall|j: int| 0 <= j < i ==> self@[j] == spec_mat_add(old(self)@, v@)[j],
                    forall|j: int| i < j < rows ==> self@[j] == old(self)@[j],
                    self@[i as int].len() == cols,
                    forall|t: int|
                        0 <= t < jj ==> self@[i as int][t] == spec_mat_add(old(self)@, v@)[i as int][t],
                    forall|t: int| jj <= t < cols ==> self@[i as int][t] == old(self)@[i as int][t],
                decreases cols - jj,
            {
                let x = self.at(i, jj).add(v.at(i, jj));
                proof {
                    K::law_wf(self@[i as int][jj as int], v@[i as int][jj as int]);
                }
                self.set_at(i, jj, x);
                jj = jj + 1;
            }
            proof {
                assert(self@[i as int] =~= spec_mat_add(old(self)@, v@)[i as int]);
            }
            i = i + 1;
        }
        proof {
            assert(self@ =~= spec_mat_add(old(self)@, v@));
        }
        Ok(())
    }

    /// Row-wise difference, in place. Fails, leaving the matrix unchanged,
    /// exactly when the dimensions differ.
    pub fn sub(&mut self, v: &Matrix<K>) -> (r: Result<(), LinalgError>)
        requires
            old(self).wf(),
            v.wf(),
        ensures
            final(self).wf(),
            r is Ok <==> (old(self)@.len() == v@.len() && mat_cols(old(self)@) == mat_cols(v@)),
            r is Ok ==> final(self)@ == spec_mat_sub(old(self)@, v@),
            r is Err ==> final(self)@ == old(self)@ && r->Err_0 == LinalgError::SizeMismatch,
    {
        if self.rows != v.rows || self.cols != v.cols {
            return Err(LinalgError::SizeMismatch);
        }
        let rows = self.rows;
        let cols = self.cols;
        let mut i: usize = 0;
        while i < rows
            invariant
                old(self).wf(),
                v.wf(),
                self.wf(),
                rows == old(self)@.len() == v@.len() == self@.len(),
                cols == mat_cols(old(self)@) == mat_cols(v@) == mat_cols(self@),
                i <= rows,
                forall|j: int| 0 <= j < i ==> self@[j] == spec_mat_sub(old(self)@, v@)[j],
                forall|j: int| i <= j < rows ==> self@[j] == old(self)@[j],
            decreases rows - i,
        {
            let mut jj: usize = 0;
            while jj < cols
                invariant
                    old(self).wf(),
                    v.wf(),
                    self.wf(),
                    rows == old(self)@.len() == v@.len() == self@.len(),
                    cols == mat_cols(old(self)@) == mat_cols(v@) == mat_cols(self@),
                    i < rows,
                    jj <= cols,
                    forall|j: int| 0 <= j < i ==> self@[j] == spec_mat_sub(old(self)@, v@)[j],
                    forall|j: int| i < j < rows ==> self@[j] == old(self)@[j],
                    self@[i as int].len() == cols,
                    forall|t: int|
                        0 <= t < jj ==> self@[i as int][t] == spec_mat_sub(old(self)@, v@)[i as int][t],
                    forall|t: int| jj <= t < cols ==> self@[i as int][t] == old(self)@[i as int][t],
                decreases cols - jj,
            {
                let x = self.at(i, jj).sub(v.at(i, jj));
                proof {
                    K::law_wf(self@[i as int][jj as int], v@[i as int][jj as int]);
                }
                self.set_at(i, jj, x);
                jj = jj + 1;
            }
            proof {
                assert(self@[i as int] =~= spec_mat_sub(old(self)@, v@)[i as int]);
            }
            i = i + 1;
        }
        proof {
            assert(self@ =~= spec_mat_sub(old(self)@, v@));
        }
        Ok(())
    }

    /// Multiply every element by the scalar `a`, in place.
    pub fn scl(&mut self, a: K)
        requires
            old(self).wf(),
            a.wf(),
        ensures
            final(self).wf(),
            final(self)@ == spec_mat_scl(old(self)@, a),
    {
        let rows = self.rows;
        let cols = self.cols;
        let mut i: usize = 0;
        while i < rows
            invariant
                old(self).wf(),
                a.wf(),
                self.wf(),
                rows == old(self)@.len() == self@.len(),
                cols == mat_cols(old(self)@) == mat_cols(self@),
                i <= rows,
                forall|j: int| 0 <= j < i ==> self@[j] == spec_mat_scl(old(self)@, a)[j],
                forall|j: int| i <= j < rows ==> self@[j] == old(self)@[j],
            decreases rows - i,
        {
            let mut jj: usize = 0;
            while jj < cols
                invariant
                    old(self).wf(),
                    a.wf(),
                    self.wf(),
                    rows == old(self)@.len() == self@.len(),
                    cols == mat_cols(old(self)@) == mat_cols(self@),
                    i < rows,
                    jj <= cols,
                    forall|j: int| 0 <= j < i ==> self@[j] == spec_mat_scl(old(self)@, a)[j],
                    forall|j: int| i < j < rows ==> self@[j] == old(self)@[j],
                    self@[i as int].len() == cols,
                    forall|t: int|
                        0 <= t < jj ==> self@[i as int][t] == spec_mat_scl(old(self)@, a)[i as int][t],
                    forall|t: int| jj <= t < cols ==> self@[i as int][t] == old(self)@[i as int][t],
                decreases cols - jj,
            {
                let x = self.at(i, jj).mul(a);
                proof {
                    K::law_wf(self@[i as int][jj as int], a);
                }
                self.set_at(i, jj, x);
                jj = jj + 1;
            }
            proof {
                assert(self@[i as int] =~= spec_mat_scl(old(self)@, a)[i as int]);
            }
            i = i + 1;
        }
        proof {
            assert(self@ =~= spec_mat_scl(old(self)@, a));
        }
    }

    /// Divide every element by the scalar `a`, in place. Fails, leaving
    /// the matrix unchanged, exactly when `a` is the additive identity.
    pub fn inv_scl(&mut self, a: K) -> (r: Result<(), LinalgError>)
        requires
            old(self).wf(),
            a.wf(),
        ensures
            final(self).wf(),
            r is Ok <==> a != K::spec_zero(),
            r is Ok ==> final(self)@ == spec_mat_div(old(self)@, a),
            r is Err ==> final(self)@ == old(self)@ && r->Err_0 == LinalgError::DivisionByZero,
    {
        proof {
            K::law_consts();
        }
        if a.eq_val(K::zero()) {
            return Err(LinalgError::DivisionByZero);
        }
        let rows = self.rows;
        let cols = self.cols;
        let mut i: usize = 0;
        while i < rows
            invariant
                old(self).wf(),
                a.wf(),
                a != K::spec_zero(),
                self.wf(),
                rows == old(self)@.len() == self@.len(),
                cols == mat_cols(old(self)@) == mat_cols(self@),
                i <= rows,
                forall|j: int| 0 <= j < i ==> self@[j] == spec_mat_div(old(self)@, a)[j],
                forall|j: int| i <= j < rows ==> self@[j] == old(self)@[j],
            decreases rows - i,
        {
            let mut jj: usize = 0;
            while jj < cols
                invariant
                    old(self).wf(),
                    a.wf(),
                    a != K::spec_zero(),
                    self.wf(),
                    rows == old(self)@.len() == self@.len(),
                    cols == mat_cols(old(self)@) == mat_cols(self@),
                    i < rows,
                    jj <= cols,
                    forall|j: int| 0 <= j < i ==> self@[j] == spec_mat_div(old(self)@, a)[j],
                    forall|j: int| i < j < rows ==> self@[j] == old(self)@[j],
                    self@[i as int].len() == cols,
                    forall|t: int|
                        0 <= t < jj ==> self@[i as int][t] == spec_mat_div(old(self)@, a)[i as int][t],
                    forall|t: int| jj <= t < cols ==> self@[i as int][t] == old(self)@[i as int][t],
                decreases cols - jj,
            {
                let x = self.at(i, jj).div(a);
                proof {
                    K::law_wf(self@[i as int][jj as int], a);
                }
                self.set_at(i, jj, x);
                jj = jj + 1;
            }
            proof {
                assert(self@[i as int] =~= spec_mat_div(old(self)@, a)[i as int]);
            }
            i = i + 1;
        }
        proof {
            assert(self@ =~= spec_mat_div(old(self)@, a));
        }
        Ok(())
    }

    /// Add the vector to every row, in place. Fails, leaving the matrix
    /// unchanged, exactly when the vector's dimension differs from the
    /// column count.
    pub fn add_vec(&mut self, v: &Vector<K>) -> (r: Result<(), LinalgError>)
        requires
            old(self).wf(),
            v.wf(),
        ensures
            final(self).wf(),
            r is Ok <==> v@.len() == mat_cols(old(self)@),
            r is Ok ==> final(self)@ == spec_mat_add_vec(old(self)@, v@),
            r is Err ==> final(self)@ == old(self)@ && r->Err_0 == LinalgError::SizeMismatch,
    {
        if v.size() != self.cols {
            return Err(LinalgError::SizeMismatch);
        }
        let rows = self.rows;
        let cols = self.cols;
        let mut i: usize = 0;
        while i < rows
            invariant
                old(self).wf(),
                v.wf(),
                self.wf(),
                rows == old(self)@.len() == self@.len(),
                cols == mat_cols(old(self)@) == mat_cols(self@) == v@.len(),
                i <= rows,
                forall|j: int| 0 <= j < i ==> self@[j] == spec_mat_add_vec(old(self)@, v@)[j],
                forall|j: int| i <= j < rows ==> self@[j] == old(self)@[j],
            decreases rows - i,
        {
            let mut jj: usize = 0;
            while jj < cols
                invariant
                    old(self).wf(),
                    v.wf(),
                    self.wf(),
                    rows == old(self)@.len() == self@.len(),
                    cols == mat_cols(old(self)@) == mat_cols(self@) == v@.len(),
                    i < rows,
                    jj <= cols,
                    forall|j: int| 0 <= j < i ==> self@[j] == spec_mat_add_vec(old(self)@, v@)[j],
                    forall|j: int| i < j < rows ==> self@[j] == old(self)@[j],
                    self@[i as int].len() == cols,
                    forall|t: int|
                        0 <= t < jj ==> self@[i as int][t] == spec_mat_add_vec(old(self)@, v@)[i as int][t],
                    forall|t: int| jj <= t < cols ==> self@[i as int][t] == old(self)@[i as int][t],
                decreases cols - jj,
            {
                let x = self.at(i, jj).add(v.data()[jj]);
                proof {
                    K::law_wf(self@[i as int][jj as int], v@[jj as int]);
                }
                self.set_at(i, jj, x);
                jj = jj + 1;
            }
            proof {
                assert(self@[i as int] =~= spec_mat_add_vec(old(self)@, v@)[i as int]);
            }
            i = i + 1;
        }
        proof {
            assert(self@ =~= spec_mat_add_vec(old(self)@, v@));
        }
        Ok(())
    }

    /// Subtract the vector from every row, in place. Fails, leaving the
    /// matrix unchanged, exactly when the vector's dimension differs from
    /// the column count.
    pub fn sub_vec(&mut self, v: &Vector<K>) -> (r: Result<(), LinalgError>)
        requires
            old(self).wf(),
            v.wf(),
        ensures
            final(self).wf(),
            r is Ok <==> v@.len() == mat_cols(old(self)@),
            r is Ok ==> final(self)@ == spec_mat_sub_vec(old(self)@, v@),
            r is Err ==> final(self)@ == old(self)@ && r->Err_0 == LinalgError::SizeMismatch,
    {
        if v.size() != self.cols {
            return Err(LinalgError::SizeMismatch);
        }
        let rows = self.rows;
        let cols = self.cols;
        let mut i: usize = 0;
        while i < rows
            invariant
                old(self).wf(),
                v.wf(),
                self.wf(),
                rows == old(self)@.len() == self@.len(),
                cols == mat_cols(old(self)@) == mat_cols(self@) == v@.len(),
                i <= rows,
                forall|j: int| 0 <= j < i ==> self@[j] == spec_mat_sub_vec(old(self)@, v@)[j],
                forall|j: int| i <= j < rows ==> self@[j] == old(self)@[j],
            decreases rows - i,
        {
            let mut jj: usize = 0;
            while jj < cols
                invariant
                    old(self).wf(),
                    v.wf(),
                    self.wf(),
                    rows == old(self)@.len() == self@.len(),
                    cols == mat_cols(old(self)@) == mat_cols(self@) == v@.len(),
                    i < rows,
                    jj <= cols,
                    forall|j: int| 0 <= j < i ==> self@[j] == spec_mat_sub_vec(old(self)@, v@)[j],
                    forall|j: int| i < j < rows ==> self@[j] == old(self)@[j],
                    self@[i as int].len() == cols,
                    forall|t: int|
                        0 <= t < jj ==> self@[i as int][t] == spec_mat_sub_vec(old(self)@, v@)[i as int][t],
                    forall|t: int| jj <= t < cols ==> self@[i as int][t] == old(self)@[i as int][t],
                decreases cols - jj,
            {
                let x = self.at(i, jj).sub(v.data()[jj]);
                proof {
                    K::law_wf(self@[i as int][jj as int], v@[jj as int]);
                }
                self.set_at(i, jj, x);
                jj = jj + 1;
            }
            proof {
                assert(self@[i as int] =~= spec_mat_sub_vec(old(self)@, v@)[i as int]);
            }
            i = i + 1;
        }
        proof {
            assert(self@ =~= spec_mat_sub_vec(old(self)@, v@));
        }
        Ok(())
    }

    /// Multiply every row element-wise by the vector, in place. Fails,
    /// leaving the matrix unchanged, exactly when the vector's dimension
    /// differs from the column count.
    pub fn mul_vec_rows(&mut self, v: &Vector<K>) -> (r: Result<(), LinalgError>)
        requires
            old(self).wf(),
            v.wf(),
        ensures
            final(self).wf(),
            r is Ok <==> v@.len() == mat_cols(old(self)@),
            r is Ok ==> final(self)@ == spec_mat_mul_vec_rows(old(self)@, v@),
            r is Err ==> final(self)@ == old(self)@ && r->Err_0 == LinalgError::SizeMismatch,
    {
        if v.size() != self.cols {
            return Err(LinalgError::SizeMismatch);
        }
        let rows = self.rows;
        let cols = self.cols;
        let mut i: usize = 0;
        while i < rows
            invariant
                old(self).wf(),
                v.wf(),
                self.wf(),
                rows == old(self)@.len() == self@.len(),
                cols == mat_cols(old(self)@) == mat_cols(self@) == v@.len(),
                i <= rows,
                forall|j: int| 0 <= j < i ==> self@[j] == spec_mat_mul_vec_rows(old(self)@, v@)[j],
                forall|j: int| i <= j < rows ==> self@[j] == old(self)@[j],
            decreases rows - i,
        {
            let mut jj: usize = 0;
            while jj < cols
                invariant
                    old(self).wf(),
                    v.wf(),
                    self.wf(),
                    rows == old(self)@.len() == self@.len(),
                    cols == mat_cols(old(self)@) == mat_cols(self@) == v@.len(),
                    i < rows,
                    jj <= cols,
                    forall|j: int| 0 <= j < i ==> self@[j] == spec_mat_mul_vec_rows(old(self)@, v@)[j],
                    forall|j: int| i < j < rows ==> self@[j] == old(self)@[j],
                    self@[i as int].len() == cols,
                    forall|t: int|
                        0 <= t < jj ==> self@[i as int][t] == spec_mat_mul_vec_rows(old(self)@, v@)[i as int][t],
                    forall|t: int| jj <= t < cols ==> self@[i as int][t] == old(self)@[i as int][t],
                decreases cols - jj,
            {
                let x = self.at(i, jj).mul(v.data()[jj]);
                proof {
                    K::law_wf(self@[i as int][jj as int], v@[jj as int]);
                }
                self.set_at(i, jj, x);
                jj = jj + 1;
            }
            proof {
                assert(self@[i as int] =~= spec_mat_mul_vec_rows(old(self)@, v@)[i as int]);
            }
            i = i + 1;
        }
        proof {
            assert(self@ =~= spec_mat_mul_vec_rows(old(self)@, v@));
        }
        Ok(())
    }
}

/// The `n x n` identity as rows: ones on the diagonal, zeros elsewhere.
pub open spec fn spec_identity<K: Field>(n: nat) -> Seq<Seq<K>> {
    Seq::new(
        n,
        |i: int|
            Seq::new(
                n,
                |j: int|
                    if i == j {
                        K::spec_one()
                    } else {
                        K::spec_zero()
                    },
            ),
    )
}

impl<K: Field> Matrix<K> {
    /// The matrix product: entry `(i, j)` is the dot product of row `i`
    /// of `self` with column `j` of `rhs`. Fails exactly when the inner
    /// dimensions disagree.
    pub fn mul_mat(&self, rhs: &Matrix<K>) -> (r: Result<Matrix<K>, LinalgError>)
        requires
            self.wf(),
            rhs.wf(),
        ensures
            r is Ok <==> mat_cols(self@) == rhs@.len(),
            r is Ok ==> r->Ok_0@ == spec_matmul(self@, rhs@, mat_cols(rhs@)) && r->Ok_0.wf(),
            r is Err ==> r->Err_0 == LinalgError::SizeMismatch,
    {
        if self.cols != rhs.rows {
            return Err(LinalgError::SizeMismatch);
        }
        let rows = self.rows;
        let n = self.cols;
        let p = rhs.cols;
        let ghost target = spec_matmul(self@, rhs@, mat_cols(rhs@));
        let mut data: Vec<Vec<K>> = Vec::new();
        let mut i: usize = 0;
        while i < rows
            invariant
                self.wf(),
                rhs.wf(),
                rows == self@.len(),
                n == mat_cols(self@) == rhs@.len(),
                p == mat_cols(rhs@),
                target == spec_matmul(self@, rhs@, mat_cols(rhs@)),
                i <= rows,
                data@.len() == i,
                forall|t: int| 0 <= t < i ==> (#[trigger] data@[t])@ == target[t],
            decreases rows - i,
        {
            let mut row: Vec<K> = Vec::new();
            let mut j: usize = 0;
            while j < p
                invariant
                    self.wf(),
                    rhs.wf(),
                    rows == self@.len(),
                    n == mat_cols(self@) == rhs@.len(),
                    p == mat_cols(rhs@),
                    target == spec_matmul(self@, rhs@, mat_cols(rhs@)),
                    i < rows,
                    j <= p,
                    row@.len() == j,
                    forall|t: int| 0 <= t < j ==> row@[t] == target[i as int][t],
                decreases p - j,
            {
                let ghost col = spec_col(rhs@, j as int);
                let ghost prods = spec_vec_mul(self@[i as int], col);
                let mut acc = K::zero();
                proof {
                    K::law_consts();
                    assert(prods.take(0) =~= Seq::<K>::empty());
                }
                let mut k: usize = 0;
                while k < n
                    invariant
                        self.wf(),
                        rhs.wf(),
                        rows == self@.len(),
                        n == mat_cols(self@) == rhs@.len(),
                        p == mat_cols(rhs@),
                        i < rows,
                        j < p,
                        col == spec_col(rhs@, j as int),
                        prods == spec_vec_mul(self@[i as int], col),
                        k <= n,
                        acc == sum_seq(prods.take(k as int)),
                        acc.wf(),
                    decreases n - k,
                {
                    let x = self.at(i, k).mul(rhs.at(k, j));
                    proof {
                        K::law_wf(self@[i as int][k as int], rhs@[k as int][j as int]);
                        assert(col[k as int] == rhs@[k as int][j as int]);
                    }
                    acc = acc.add(x);
                    proof {
                        K::law_wf(sum_seq(prods.take(k as int)), x);
                        lemma_sum_take_step(prods, k as int);
                    }
                    k = k + 1;
                }
                proof {
                    assert(prods.take(n as int) =~= prods);
                    assert(acc == target[i as int][j as int]);
                }
                row.push(acc);
                j = j + 1;
            }
            proof {
                assert(row@ =~= target[i as int]);
            }
            data.push(row);
            i = i + 1;
        }
        let m = Matrix { data, rows, cols: p };
        proof {
            assert(m@ =~= target);
            assert forall|t: int| 0 <= t < m@.len() implies wf_seq(#[trigger] m@[t]) by {
                assert forall|jj: int| 0 <= jj < m@[t].len() implies (#[trigger] m@[t][jj]).wf()
                    by {
                    crate::mulspec::lemma_dot_wf::<K>(self@[t], spec_col(rhs@, jj));
                }
            }
            assert(rect(m@));
        }
        Ok(m)
    }

    /// The matrix-vector product: entry `i` is the dot product of row `i`
    /// with `rhs`. Fails exactly when the column count differs from the
    /// vector's dimension.
    pub fn mul_vec(&self, rhs: &Vector<K>) -> (r: Result<Vector<K>, LinalgError>)
        requires
            self.wf(),
            rhs.wf(),
        ensures
            r is Ok <==> mat_cols(self@) == rhs@.len(),
            r is Ok ==> r->Ok_0@ == spec_matvec(self@, rhs@) && r->Ok_0.wf(),
            r is Err ==> r->Err_0 == LinalgError::SizeMismatch,
    {
        if self.cols != rhs.size() {
            return Err(LinalgError::SizeMismatch);
        }
        let rows = self.rows;
        let n = self.cols;
        let mut out: Vec<K> = Vec::new();
        let mut i: usize = 0;
        while i < rows
            invariant
                self.wf(),
                rhs.wf(),
                rows == self@.len(),
                n == mat_cols(self@) == rhs@.len(),
                i <= rows,
                out@.len() == i,
                forall|t: int| 0 <= t < i ==> out@[t] == spec_matvec(self@, rhs@)[t],
                wf_seq(out@),
            decreases rows - i,
        {
            let ghost prods = spec_vec_mul(self@[i as int], rhs@);
            let mut acc = K::zero();
            proof {
                K::law_consts();
                assert(prods.take(0) =~= Seq::<K>::empty());
            }
            let mut k: usize = 0;
            while k < n
                invariant
                    self.wf(),
                    rhs.wf(),
                    rows == self@.len(),
                    n == mat_cols(self@) == rhs@.len(),
                    i < rows,
                    prods == spec_vec_mul(self@[i as int], rhs@),
                    k <= n,
                    acc == sum_seq(prods.take(k as int)),
                    acc.wf(),
                decreases n - k,
            {
                let x = self.at(i, k).mul(rhs.data()[k]);
                proof {
                    K::law_wf(self@[i as int][k as int], rhs@[k as int]);
                }
                acc = acc.add(x);
                proof {
                    K::law_wf(sum_seq(prods.take(k as int)), x);
                    lemma_sum_take_step(prods, k as int);
                }
                k = k + 1;
            }
            proof {
                assert(prods.take(n as int) =~= prods);
            }
            out.push(acc);
            i = i + 1;
        }
        proof {
            assert(out@ =~= spec_matvec(self@, rhs@));
        }
        Ok(Vector::new(out))
    }

    /// The transpose: rows become columns. Never fails.
    pub fn transpose(&self) -> (r: Matrix<K>)
        requires
            self.wf(),
        ensures
            r@ == spec_transpose(self@),
            r.wf(),
    {
        let rows = self.rows;
        let cols = self.cols;
        let mut data: Vec<Vec<K>> = Vec::new();
        let mut j: usize = 0;
        while j < cols
            invariant
                self.wf(),
                rows == self@.len(),
                cols == mat_cols(self@),
                j <= cols,
                data@.len() == j,
                forall|t: int| 0 <= t < j ==> (#[trigger] data@[t])@ == spec_transpose(self@)[t],
            decreases cols - j,
        {
            let mut row: Vec<K> = Vec::new();
            let mut i: usize = 0;
            while i < rows
                invariant
                    self.wf(),
                    rows == self@.len(),
                    cols == mat_cols(self@),
                    j < cols,
                    i <= rows,
                    row@.len() == i,
                    forall|t: int| 0 <= t < i ==> row@[t] == self@[t][j as int],
                decreases rows - i,
            {
                row.push(self.at(i, j));
                i = i + 1;
            }
            proof {
                assert(row@ =~= spec_col(self@, j as int));
            }
            data.push(row);
            j = j + 1;
        }
        let r = Matrix { data, rows: cols, cols: if cols == 0 {
            0
        } else {
            rows
        } };
        proof {
            assert(r@ =~= spec_transpose(self@));
            assert forall|t: int| 0 <= t < r@.len() implies wf_seq(#[trigger] r@[t]) by {
                assert forall|ii: int| 0 <= ii < r@[t].len() implies (#[trigger] r@[t][ii]).wf()
                    by {
                    assert(r@[t][ii] == self@[ii][t]);
                }
            }
            assert(rect(r@));
        }
        r
    }
}

/// Row-wise linear interpolation between two matrices at parameter `t`.
pub open spec fn spec_mat_lerp<K: Field>(a: Seq<Seq<K>>, b: Seq<Seq<K>>, t: K) -> Seq<Seq<K>> {
    Seq::new(a.len(), |i: int| crate::vector::spec_lerp(a[i], b[i], t))
}

/// Linear interpolation `u + (v - u) * t` between two matrices,
/// element-wise; `t` outside the unit interval extrapolates. Fails
/// exactly when the dimensions differ.
pub fn lerp_matrix<K: Field>(u: &Matrix<K>, v: &Matrix<K>, t: K) -> (r: Result<
    Matrix<K>,
    LinalgError,
>)
    requires
        u.wf(),
        v.wf(),
        t.wf(),
    ensures
        r is Ok <==> (u@.len() == v@.len() && mat_cols(u@) == mat_cols(v@)),
        r is Ok ==> r->Ok_0@ == spec_mat_lerp(u@, v@, t) && r->Ok_0.wf(),
        r is Err ==> r->Err_0 == LinalgError::SizeMismatch,
{
    proof {
        u.lemma_wf_facts();
        v.lemma_wf_facts();
    }
    let rows = u.rows();
    let cols = u.cols();
    if rows != v.rows() || cols != v.cols() {
        return Err(LinalgError::SizeMismatch);
    }
    let mut data: Vec<Vec<K>> = Vec::new();
    let mut i: usize = 0;
    while i < rows
        invariant
            u.wf(),
            v.wf(),
            t.wf(),
            rows == u@.len() == v@.len(),
            cols == mat_cols(u@) == mat_cols(v@),
            i <= rows,
            data@.len() == i,
            forall|j: int| 0 <= j < i ==> (#[trigger] data@[j])@ == spec_mat_lerp(u@, v@, t)[j],
        decreases rows - i,
    {
        let mut row: Vec<K> = Vec::new();
        let mut j: usize = 0;
        while j < cols
            invariant
                u.wf(),
                v.wf(),
                t.wf(),
                rows == u@.len() == v@.len(),
                cols == mat_cols(u@) == mat_cols(v@),
                i < rows,
                j <= cols,
                row@.len() == j,
                forall|k: int|
                    0 <= k < j ==> row@[k] == crate::vector::spec_lerp(
                        u@[i as int],
                        v@[i as int],
                        t,
                    )[k],
            decreases cols - j,
        {
            let a = u.at(i, j);
            let b = v.at(i, j);
            proof {
                K::law_wf(b, a);
                K::law_wf(b.spec_sub(a), t);
                K::law_wf(a, b.spec_sub(a).spec_mul(t));
            }
            row.push(a.add(b.sub(a).mul(t)));
            j = j + 1;
        }
        proof {
            assert(row@ =~= crate::vector::spec_lerp(u@[i as int], v@[i as int], t));
        }
        data.push(row);
        i = i + 1;
    }
    let m = Matrix { data, rows, cols };
    proof {
        assert(m@ =~= spec_mat_lerp(u@, v@, t));
        assert forall|i2: int| 0 <= i2 < m@.len() implies wf_seq(#[trigger] m@[i2]) by {
            crate::vector::lemma_wf_vec_ops::<K>(u@[i2], v@[i2], t);
            assert forall|k: int| 0 <= k < m@[i2].len() implies (#[trigger] m@[i2][k]).wf() by {
                K::law_wf(v@[i2][k], u@[i2][k]);
                K::law_wf(v@[i2][k].spec_sub(u@[i2][k]), t);
                K::law_wf(u@[i2][k], v@[i2][k].spec_sub(u@[i2][k]).spec_mul(t));
            }
        }
        assert(rect(m@));
    }
    Ok(m)
}

/// A copy of a row of scalars.
fn clone_row<K: Field>(v: &Vec<K>) -> (r: Vec<K>)
    ensures
        r@ == v@,
{
    let mut r: Vec<K> = Vec::new();
    let mut i: usize = 0;
    while i < v.len()
        invariant
            i <= v@.len(),
            r@.len() == i,
            forall|j: int| 0 <= j < i ==> r@[j] == v@[j],
        decreases v@.len() - i,
    {
        r.push(v[i]);
        i = i + 1;
    }
    proof {
        assert(r@ =~= v@);
    }
    r
}

} // verus!
