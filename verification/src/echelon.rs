//! The reduction engine: reduced row-echelon form by Gauss-Jordan
//! elimination with partial pivoting, the determinant of a square matrix,
//! and inversion through the augmented form `[A | I]`.
//!
//! `row_echelon` never fails; its result is in reduced row-echelon form
//! and row-equivalent to the input, which two ghost witnesses carry: the
//! result is a left multiple of the input, and the input a left multiple
//! of the result. `inverse` returns an exact two-sided inverse, and a
//! [`LinalgError::Singular`] outcome is honest: it comes with a proof
//! that no matrix multiplies the input to the identity.

use vstd::prelude::*;
use crate::field::{
    lemma_div_one, lemma_self_div, lemma_sub_self, lemma_sub_zero, lemma_zero_div, lemma_zero_mul,
    wf_seq, Field,
};
use crate::matrix::{mat_cols, spec_identity, wf_mat, Matrix};
use crate::mulspec::{
    lemma_dot_scl, lemma_dot_sub_scl, lemma_matmul_identity_left, lemma_matmul_identity_right,
    lemma_matmul_update_row, lemma_matvec_assoc, lemma_matvec_identity, lemma_matvec_zeros,
    lemma_sum_two, lemma_sum_zeros, lemma_two_update_sum, spec_col, spec_matmul, spec_matvec,
};
use crate::vector::{
    lemma_vec_div_as_scl, lemma_wf_vec_ops, spec_dot, spec_vec_div, spec_vec_mul, spec_vec_scl,
    spec_vec_sub,
};
use crate::LinalgError;

verus! {

/// A matrix of exactly `r` rows and `c` columns.
pub open spec fn mat_dims<K: Field>(m: Seq<Seq<K>>, r: nat, c: nat) -> bool {
    m.len() == r && (forall|i: int| 0 <= i < m.len() ==> (#[trigger] m[i]).len() == c)
}

/// Row `r` after subtracting `f` times row `p`, from column `start` on.
pub open spec fn spec_row_elim<K: Field>(
    m: Seq<Seq<K>>,
    r: int,
    p: int,
    f: K,
    start: int,
) -> Seq<K> {
    Seq::new(
        m[r].len(),
        |t: int|
            if t < start {
                m[r][t]
            } else {
                m[r][t].spec_sub(f.spec_mul(m[p][t]))
            },
    )
}

/// `m` is in reduced row-echelon form with the pivot columns `pivs`:
/// one pivot per leading row, each a one, strictly further right as the
/// rows descend, alone in its column, with nothing to its left, and only
/// zero rows below the last pivot.
pub open spec fn rref_form<K: Field>(m: Seq<Seq<K>>, pivs: Seq<int>) -> bool {
    &&& pivs.len() <= m.len()
    &&& (forall|k: int| 0 <= k < pivs.len() ==> 0 <= #[trigger] pivs[k] < mat_cols(m))
    &&& (forall|k1: int, k2: int| 0 <= k1 < k2 < pivs.len() ==> pivs[k1] < pivs[k2])
    &&& (forall|k: int| 0 <= k < pivs.len() ==> m[k][#[trigger] pivs[k]] == K::spec_one())
    &&& (forall|k: int, r: int|
        0 <= k < pivs.len() && 0 <= r < m.len() && r != k ==> #[trigger] m[r][pivs[k]]
            == K::spec_zero())
    &&& (forall|k: int, j: int|
        0 <= k < pivs.len() && 0 <= j < pivs[k] ==> #[trigger] m[k][j] == K::spec_zero())
    &&& (forall|r: int, j: int|
        pivs.len() <= r < m.len() && 0 <= j < mat_cols(m) ==> #[trigger] m[r][j]
            == K::spec_zero())
}

/// Some pivot sits in column `c`.
spec fn is_piv_col(pivs: Seq<int>, c: int) -> bool {
    exists|k: int| 0 <= k < pivs.len() && pivs[k] == c
}

/// The index of the pivot sitting in column `c`.
spec fn piv_of(pivs: Seq<int>, c: int) -> int {
    choose|k: int| 0 <= k < pivs.len() && pivs[k] == c
}

/// In a strictly increasing list of nonnegative integers, the `k`-th
/// entry is at least `k`.
proof fn lemma_increasing_lower(pivs: Seq<int>, k: int)
    requires
        forall|k1: int, k2: int| 0 <= k1 < k2 < pivs.len() ==> pivs[k1] < pivs[k2],
        forall|k1: int| 0 <= k1 < pivs.len() ==> #[trigger] pivs[k1] >= 0,
        0 <= k < pivs.len(),
    ensures
        pivs[k] >= k,
    decreases k,
{
    if k > 0 {
        lemma_increasing_lower(pivs, k - 1);
        assert(pivs[k - 1] < pivs[k]);
    }
}

/// If every column before `nn` carries a pivot, the first `nn` pivots sit
/// exactly on the diagonal.
proof fn lemma_full_pivots(pivs: Seq<int>, nn: int)
    requires
        forall|k1: int, k2: int| 0 <= k1 < k2 < pivs.len() ==> pivs[k1] < pivs[k2],
        forall|k1: int| 0 <= k1 < pivs.len() ==> #[trigger] pivs[k1] >= 0,
        forall|c: int| 0 <= c < nn ==> #[trigger] is_piv_col(pivs, c),
    ensures
        forall|k: int| 0 <= k < nn ==> k < pivs.len() && #[trigger] pivs[k] == k,
    decreases nn,
{
    if nn > 0 {
        lemma_full_pivots(pivs, nn - 1);
        assert(is_piv_col(pivs, nn - 1));
        let k0 = choose|k: int| 0 <= k < pivs.len() && pivs[k] == nn - 1;
        lemma_increasing_lower(pivs, k0);
        if k0 < nn - 1 {
            assert(pivs[k0] == k0);
            assert(false);
        }
        assert(k0 == nn - 1 && pivs[nn - 1] == nn - 1);
    }
}

/// The inverse transform of a row swap: the same two columns exchanged.
spec fn col_swap<K: Field>(ss: Seq<Seq<K>>, p: int, b: int) -> Seq<Seq<K>> {
    Seq::new(ss.len(), |i: int| ss[i].update(p, ss[i][b]).update(b, ss[i][p]))
}

/// The inverse transform of dividing row `p` by `pivot`: column `p`
/// multiplied by `pivot`.
spec fn col_scale<K: Field>(ss: Seq<Seq<K>>, p: int, pivot: K) -> Seq<Seq<K>> {
    Seq::new(ss.len(), |i: int| ss[i].update(p, ss[i][p].spec_mul(pivot)))
}

/// The inverse transform of subtracting `f` times row `p` from row `ri`:
/// `f` times column `ri` added to column `p`.
spec fn col_elim<K: Field>(ss: Seq<Seq<K>>, p: int, ri: int, f: K) -> Seq<Seq<K>> {
    Seq::new(ss.len(), |i: int| ss[i].update(p, ss[i][p].spec_add(ss[i][ri].spec_mul(f))))
}

/// Swapping two rows of the right factor is undone by swapping the same
/// two columns of the left factor.
proof fn lemma_matmul_col_swap<K: Field>(ss: Seq<Seq<K>>, m: Seq<Seq<K>>, c: nat, p: int, b: int)
    requires
        forall|i: int| 0 <= i < ss.len() ==> (#[trigger] ss[i]).len() == m.len(),
        0 <= p < m.len(),
        0 <= b < m.len(),
    ensures
        spec_matmul(col_swap(ss, p, b), m.update(p, m[b]).update(b, m[p]), c) == spec_matmul(
            ss,
            m,
            c,
        ),
{
    let ss2 = col_swap(ss, p, b);
    let m2 = m.update(p, m[b]).update(b, m[p]);
    assert forall|i: int, j: int| 0 <= i < ss.len() && 0 <= j < c implies spec_dot(
        ss2[i],
        spec_col(m2, j),
    ) == spec_dot(ss[i], spec_col(m, j)) by {
        let q = spec_vec_mul(ss[i], spec_col(m, j));
        let q2 = spec_vec_mul(ss2[i], spec_col(m2, j));
        if p == b {
            assert(q2 =~= q);
        } else {
            assert(q2 =~= q.update(p, q[b]).update(b, q[p]));
            K::law_add_comm(q[b], q[p]);
            lemma_two_update_sum::<K>(q, p, b, q[b], q[p]);
        }
    }
    assert forall|i: int| 0 <= i < ss.len() implies #[trigger] spec_matmul(ss2, m2, c)[i]
        == spec_matmul(ss, m, c)[i] by {
        assert(spec_matmul(ss2, m2, c)[i] =~= spec_matmul(ss, m, c)[i]);
    }
    assert(spec_matmul(ss2, m2, c) =~= spec_matmul(ss, m, c));
}

/// Dividing a row of the right factor by a pivot is undone by
/// multiplying the matching column of the left factor by it.
proof fn lemma_matmul_col_scale<K: Field>(
    ss: Seq<Seq<K>>,
    m: Seq<Seq<K>>,
    c: nat,
    p: int,
    pivot: K,
)
    requires
        forall|i: int| 0 <= i < ss.len() ==> (#[trigger] ss[i]).len() == m.len(),
        mat_dims(m, m.len(), c),
        wf_mat(m),
        0 <= p < m.len(),
        pivot.wf(),
        pivot != K::spec_zero(),
    ensures
        spec_matmul(col_scale(ss, p, pivot), m.update(p, spec_vec_div(m[p], pivot)), c)
            == spec_matmul(ss, m, c),
{
    let ss2 = col_scale(ss, p, pivot);
    let m2 = m.update(p, spec_vec_div(m[p], pivot));
    K::law_consts();
    assert forall|i: int, j: int| 0 <= i < ss.len() && 0 <= j < c implies spec_dot(
        ss2[i],
        spec_col(m2, j),
    ) == spec_dot(ss[i], spec_col(m, j)) by {
        let q = spec_vec_mul(ss[i], spec_col(m, j));
        let q2 = spec_vec_mul(ss2[i], spec_col(m2, j));
        let u = ss[i][p];
        let x = m[p][j];
        // (u * pivot) * (x / pivot) == u * x
        crate::field::lemma_div_as_mul::<K>(x, pivot);
        let w = K::spec_one().spec_div(pivot);
        K::law_mul_assoc(u, pivot, x.spec_mul(w));
        K::law_mul_comm(x, w);
        K::law_mul_assoc(pivot, w, x);
        K::law_div_mul(K::spec_one(), pivot);
        K::law_mul_comm(w, pivot);
        crate::field::lemma_one_mul::<K>(x);
        assert(pivot.spec_mul(x.spec_mul(w)) == x);
        assert(q2 =~= q);
    }
    assert forall|i: int| 0 <= i < ss.len() implies #[trigger] spec_matmul(ss2, m2, c)[i]
        == spec_matmul(ss, m, c)[i] by {
        assert(spec_matmul(ss2, m2, c)[i] =~= spec_matmul(ss, m, c)[i]);
    }
    assert(spec_matmul(ss2, m2, c) =~= spec_matmul(ss, m, c));
}

/// Subtracting a multiple of one row from another in the right factor is
/// undone by adding the same multiple of a column in the left factor.
proof fn lemma_matmul_col_elim<K: Field>(
    ss: Seq<Seq<K>>,
    m: Seq<Seq<K>>,
    c: nat,
    p: int,
    ri: int,
    f: K,
)
    requires
        forall|i: int| 0 <= i < ss.len() ==> (#[trigger] ss[i]).len() == m.len(),
        mat_dims(m, m.len(), c),
        wf_mat(m),
        wf_mat(ss),
        0 <= p < m.len(),
        0 <= ri < m.len(),
        p != ri,
        f.wf(),
    ensures
        spec_matmul(col_elim(ss, p, ri, f), m.update(ri, spec_vec_sub(m[ri], spec_vec_scl(m[p], f))), c)
            == spec_matmul(ss, m, c),
{
    let ss2 = col_elim(ss, p, ri, f);
    let m2 = m.update(ri, spec_vec_sub(m[ri], spec_vec_scl(m[p], f)));
    assert forall|i: int, j: int| 0 <= i < ss.len() && 0 <= j < c implies spec_dot(
        ss2[i],
        spec_col(m2, j),
    ) == spec_dot(ss[i], spec_col(m, j)) by {
        let q = spec_vec_mul(ss[i], spec_col(m, j));
        let q2 = spec_vec_mul(ss2[i], spec_col(m2, j));
        let up = ss[i][p];
        let ur = ss[i][ri];
        let xp = m[p][j];
        let xr = m[ri][j];
        let big = up.spec_add(ur.spec_mul(f)).spec_mul(xp);
        let small = ur.spec_mul(xr.spec_sub(xp.spec_mul(f)));
        assert(q2 =~= q.update(p, big).update(ri, small));
        // big + small == up*xp + ur*xr: the crossed f-terms cancel
        crate::field::lemma_add_mul::<K>(up, ur.spec_mul(f), xp);
        K::law_wf(ur, f);
        K::law_wf(xp, f);
        crate::field::lemma_mul_sub::<K>(ur, xr, xp.spec_mul(f));
        let cross = ur.spec_mul(f).spec_mul(xp);
        K::law_mul_assoc(ur, f, xp);
        K::law_mul_comm(f, xp);
        K::law_mul_assoc(ur, xp, f);
        assert(ur.spec_mul(xp.spec_mul(f)) == cross);
        crate::field::lemma_add_shuffle::<K>(
            up.spec_mul(xp),
            cross,
            ur.spec_mul(xr),
            cross.spec_neg(),
        );
        K::law_sub_def(ur.spec_mul(xr), cross);
        K::law_add_neg(cross);
        K::law_wf(up.spec_mul(xp), ur.spec_mul(xr));
        K::law_add_zero(up.spec_mul(xp).spec_add(ur.spec_mul(xr)));
        K::law_sub_def(small, K::spec_zero());
        assert(big.spec_add(small) == q[p].spec_add(q[ri]));
        lemma_two_update_sum::<K>(q, p, ri, big, small);
    }
    assert forall|i: int| 0 <= i < ss.len() implies #[trigger] spec_matmul(ss2, m2, c)[i]
        == spec_matmul(ss, m, c)[i] by {
        assert(spec_matmul(ss2, m2, c)[i] =~= spec_matmul(ss, m, c)[i]);
    }
    assert(spec_matmul(ss2, m2, c) =~= spec_matmul(ss, m, c));
}

/// Every column of a rectangular well-formed matrix is well-formed.
proof fn lemma_col_wf<K: Field>(a: Seq<Seq<K>>, j: int)
    requires
        wf_mat(a),
        crate::matrix::rect(a),
        0 <= j < mat_cols(a),
    ensures
        wf_seq(spec_col(a, j)),
{
    assert forall|t: int| 0 <= t < a.len() implies (#[trigger] spec_col(a, j)[t]).wf() by {
        assert(spec_col(a, j)[t] == a[t][j]);
    }
}

impl<K: Field> Matrix<K> {
    /// The reduced row-echelon form, by Gauss-Jordan elimination with
    /// partial pivoting: in each column the remaining row with the
    /// largest absolute value supplies the pivot (ties go to the lowest
    /// index); a column whose remaining entries are all zero is skipped.
    /// The pivot row is normalized to a leading one and the pivot column
    /// is cleared in every other row.
    ///
    /// The input is not modified. The result has the same dimensions and
    /// is row-equivalent to the input: it is a left multiple of the input
    /// by a square matrix of row operations, and the input is in turn a
    /// left multiple of the result (the two ghost witnesses below). An
    /// identity matrix reduces to itself.
    pub fn row_echelon(&self) -> (r: Matrix<K>)
        requires
            self.wf(),
        ensures
            r.wf(),
            r@.len() == self@.len(),
            mat_cols(r@) == mat_cols(self@),
            exists|t: Seq<Seq<K>>|
                mat_dims(t, self@.len(), self@.len()) && wf_mat(t) && r@ == #[trigger] spec_matmul(
                    t,
                    self@,
                    mat_cols(self@),
                ),
            exists|t: Seq<Seq<K>>|
                mat_dims(t, self@.len(), self@.len()) && wf_mat(t) && self@
                    == #[trigger] spec_matmul(t, r@, mat_cols(self@)),
            exists|pv: Seq<int>| #[trigger] rref_form(r@, pv),
            self@ == spec_identity::<K>(self@.len()) ==> r@ == self@,
    {
        proof {
            self.lemma_wf_facts();
            K::law_consts();
        }
        let rows = self.rows();
        let cols = self.cols();
        let mut m = self.clone_mat();
        let ghost mut rr = spec_identity::<K>(rows as nat);
        let ghost mut ss = spec_identity::<K>(rows as nat);
        let ghost mut pivs: Seq<int> = Seq::empty();
        let ghost is_id = (self@ == spec_identity::<K>(rows as nat));
        proof {
            assert forall|i: int| 0 <= i < rr.len() implies wf_seq(#[trigger] rr[i]) by {
                assert forall|j: int| 0 <= j < rr[i].len() implies (#[trigger] rr[i][j]).wf() by {
                    assert(rr[i][j] == (if i == j {
                        K::spec_one()
                    } else {
                        K::spec_zero()
                    }));
                }
            }
            lemma_matmul_identity_left::<K>(self@, mat_cols(self@));
        }
        let mut pivot_row: usize = 0;
        let mut pc: usize = 0;
        while pc < cols && pivot_row < rows
            invariant
                self.wf(),
                m.wf(),
                rows == self@.len(),
                cols == mat_cols(self@),
                m@.len() == rows,
                mat_cols(m@) == cols,
                pivot_row <= rows,
                pc <= cols,
                mat_dims(rr, rows as nat, rows as nat),
                wf_mat(rr),
                m@ == spec_matmul(rr, self@, cols as nat),
                mat_dims(ss, rows as nat, rows as nat),
                wf_mat(ss),
                self@ == spec_matmul(ss, m@, cols as nat),
                forall|i: int, j: int|
                    pivot_row <= i < rows && 0 <= j < pc ==> #[trigger] m@[i][j] == K::spec_zero(),
                pivs.len() == pivot_row,
                forall|k: int| 0 <= k < pivs.len() ==> 0 <= #[trigger] pivs[k] < pc,
                forall|k1: int, k2: int| 0 <= k1 < k2 < pivs.len() ==> pivs[k1] < pivs[k2],
                forall|k: int| 0 <= k < pivs.len() ==> m@[k][#[trigger] pivs[k]] == K::spec_one(),
                forall|k: int, r: int|
                    0 <= k < pivs.len() && 0 <= r < rows && r != k ==> #[trigger] m@[r][pivs[k]]
                        == K::spec_zero(),
                forall|k: int, j: int|
                    0 <= k < pivs.len() && 0 <= j < pivs[k] ==> #[trigger] m@[k][j]
                        == K::spec_zero(),
                is_id == (self@ == spec_identity::<K>(rows as nat)),
                is_id ==> m@ == self@ && pivot_row == pc,
            decreases cols - pc,
        {
            proof {
                self.lemma_wf_facts();
                m.lemma_wf_facts();
                K::law_consts();
            }
            let best = find_pivot(&m, pivot_row, pc);
            let pv = m.at(best, pc);
            if pv.eq_val(K::zero()) {
                proof {
                    if is_id {
                        assert(m@[pivot_row as int][pc as int] == K::spec_one());
                        assert(m@[pivot_row as int][pc as int] == K::spec_zero());
                        assert(false);
                    }
                }
                pc = pc + 1;
            } else {
                let ghost pr = pivot_row as int;
                let ghost bi = best as int;
                let ghost cn = cols as nat;
                let ghost m0 = m@;
                proof {
                    if is_id {
                        assert forall|t: int| pivot_row < t < rows implies m@[t][pc as int]
                            == K::spec_zero() by {
                            assert(m@[t][pc as int] == spec_identity::<K>(rows as nat)[t][pc as int]);
                        }
                        assert(best == pivot_row);
                    }
                }
                m.swap_rows(pivot_row, best);
                proof {
                    let rr1 = rr.update(pr, rr[bi]).update(bi, rr[pr]);
                    lemma_matmul_update_row(rr, self@, cn, pr, rr[bi]);
                    lemma_matmul_update_row(rr.update(pr, rr[bi]), self@, cn, bi, rr[pr]);
                    assert(Seq::new(cn, |j: int| spec_dot(rr[bi], spec_col(self@, j))) =~= m0[bi]);
                    assert(Seq::new(cn, |j: int| spec_dot(rr[pr], spec_col(self@, j))) =~= m0[pr]);
                    assert(spec_matmul(rr1, self@, cn) =~= m@);
                    assert forall|i: int| 0 <= i < rr1.len() implies wf_seq(#[trigger] rr1[i]) by {
                        assert(rr1[i] == rr[i] || rr1[i] == rr[pr] || rr1[i] == rr[bi]);
                    }
                    rr = rr1;
                    let ss1 = col_swap(ss, pr, bi);
                    lemma_matmul_col_swap::<K>(ss, m0, cn, pr, bi);
                    assert forall|i: int| 0 <= i < ss1.len() implies (#[trigger] ss1[i]).len()
                        == rows && wf_seq(ss1[i]) by {
                        assert forall|t: int| 0 <= t < ss1[i].len() implies (
                        #[trigger] ss1[i][t]).wf() by {
                            assert(ss1[i][t] == ss[i][t] || ss1[i][t] == ss[i][pr] || ss1[i][t]
                                == ss[i][bi]);
                        }
                    }
                    ss = ss1;
                    if is_id {
                        assert(m@ =~= m0);
                    }
                }
                let pivot = m.at(pivot_row, pc);
                let ghost m1 = m@;
                proof {
                    m.lemma_wf_facts();
                    assert(pivot == m0[bi][pc as int] && pivot != K::spec_zero());
                }
                scale_row(&mut m, pivot_row, pivot);
                proof {
                    let w = K::spec_one().spec_div(pivot);
                    K::law_wf(K::spec_one(), pivot);
                    let nr = spec_vec_scl(rr[pr], w);
                    lemma_vec_div_as_scl::<K>(m1[pr], pivot);
                    lemma_matmul_update_row(rr, self@, cn, pr, nr);
                    assert forall|j: int| 0 <= j < cn implies spec_dot(nr, spec_col(self@, j))
                        == m1[pr][j].spec_div(pivot) by {
                        lemma_col_wf::<K>(self@, j);
                        lemma_dot_scl::<K>(rr[pr], w, spec_col(self@, j));
                        assert(spec_dot(rr[pr], spec_col(self@, j)) == m1[pr][j]);
                        crate::field::lemma_div_as_mul::<K>(m1[pr][j], pivot);
                    }
                    assert(Seq::new(cn, |j: int| spec_dot(nr, spec_col(self@, j))) =~= spec_vec_scl(
                        m1[pr],
                        w,
                    ));
                    assert(spec_matmul(rr.update(pr, nr), self@, cn) =~= m@);
                    lemma_wf_vec_ops::<K>(rr[pr], rr[pr], w);
                    let rr2 = rr.update(pr, nr);
                    assert forall|i: int| 0 <= i < rr2.len() implies wf_seq(#[trigger] rr2[i]) by {
                        assert(rr2[i] == rr[i] || rr2[i] == nr);
                    }
                    rr = rr2;
                    let sss = col_scale(ss, pr, pivot);
                    lemma_matmul_col_scale::<K>(ss, m1, cn, pr, pivot);
                    assert forall|i: int| 0 <= i < sss.len() implies (#[trigger] sss[i]).len()
                        == rows && wf_seq(sss[i]) by {
                        assert forall|t: int| 0 <= t < sss[i].len() implies (
                        #[trigger] sss[i][t]).wf() by {
                            if t == pr {
                                K::law_wf(ss[i][pr], pivot);
                                assert(sss[i][t] == ss[i][pr].spec_mul(pivot));
                            } else {
                                assert(sss[i][t] == ss[i][t]);
                            }
                        }
                    }
                    ss = sss;
                    // the pivot entry becomes a leading one
                    lemma_self_div::<K>(pivot);
                    assert(m@[pr][pc as int] == K::spec_one());
                    // zeros to the left of the pivot stay zero
                    assert forall|j: int| 0 <= j < pc implies #[trigger] m@[pr][j]
                        == K::spec_zero() by {
                        assert(m1[pr][j] == K::spec_zero());
                        lemma_zero_div::<K>(pivot);
                    }
                    if is_id {
                        assert(pivot == K::spec_one());
                        assert forall|t: int| 0 <= t < cols implies #[trigger] m@[pr][t]
                            == m1[pr][t] by {
                            lemma_div_one::<K>(m1[pr][t]);
                        }
                        assert(m@[pr] =~= m1[pr]);
                        assert(m@ =~= m1);
                    }
                }
                let ghost m3 = m@;
                proof {
                    m.lemma_wf_facts();
                    assert(mat_dims(m3, rows as nat, cols as nat));
                    // rows above the pivot row were not touched by the
                    // swap or the normalization
                    assert forall|k: int| 0 <= k < pivot_row implies #[trigger] m3[k]
                        == m0[k] by {}
                    assert forall|k: int, r: int|
                        0 <= k < pivs.len() && 0 <= r < rows && r != k implies #[trigger] m3[r][
                        pivs[k]] == K::spec_zero() by {
                        if r < pivot_row {
                            assert(m3[r] == m0[r]);
                            assert(m0[r][pivs[k]] == K::spec_zero());
                        } else {
                            assert(m3[r][pivs[k]] == K::spec_zero());
                        }
                    }
                }
                let mut r3: usize = 0;
                while r3 < rows
                    invariant
                        self.wf(),
                        m.wf(),
                        rows == self@.len(),
                        cols == mat_cols(self@),
                        m@.len() == rows,
                        mat_cols(m@) == cols,
                        pivot_row < rows,
                        pc < cols,
                        pr == pivot_row as int,
                        cn == cols as nat,
                        r3 <= rows,
                        mat_dims(rr, rows as nat, rows as nat),
                        wf_mat(rr),
                        m@ == spec_matmul(rr, self@, cn),
                        mat_dims(ss, rows as nat, rows as nat),
                        wf_mat(ss),
                        self@ == spec_matmul(ss, m@, cn),
                        mat_dims(m3, rows as nat, cols as nat),
                        wf_mat(m3),
                        m@[pr] == m3[pr],
                        m3[pr][pc as int] == K::spec_one(),
                        forall|j: int| 0 <= j < pc ==> #[trigger] m3[pr][j] == K::spec_zero(),
                        forall|i: int, j: int|
                            pivot_row <= i < rows && 0 <= j < pc ==> #[trigger] m3[i][j]
                                == K::spec_zero(),
                        pivs.len() == pivot_row,
                        forall|k: int| 0 <= k < pivs.len() ==> 0 <= #[trigger] pivs[k] < pc,
                        forall|k1: int, k2: int| 0 <= k1 < k2 < pivs.len() ==> pivs[k1] < pivs[k2],
                        forall|k: int|
                            0 <= k < pivs.len() ==> m3[k][#[trigger] pivs[k]] == K::spec_one(),
                        forall|k: int, r: int|
                            0 <= k < pivs.len() && 0 <= r < rows && r != k ==> #[trigger] m3[r][
                            pivs[k]] == K::spec_zero(),
                        forall|k: int, j: int|
                            0 <= k < pivs.len() && 0 <= j < pivs[k] ==> #[trigger] m3[k][j]
                                == K::spec_zero(),
                        forall|i: int| r3 <= i < rows && i != pr ==> #[trigger] m@[i] == m3[i],
                        forall|i: int|
                            0 <= i < r3 && i != pr ==> #[trigger] m@[i] == spec_vec_sub(
                                m3[i],
                                spec_vec_scl(m3[pr], m3[i][pc as int]),
                            ),
                        is_id == (self@ == spec_identity::<K>(rows as nat)),
                        is_id ==> m3 == self@ && pivot_row == pc,
                    decreases rows - r3,
                {
                    if r3 != pivot_row {
                        let factor = m.at(r3, pc);
                        let ghost ri = r3 as int;
                        let ghost m4 = m@;
                        proof {
                            m.lemma_wf_facts();
                            self.lemma_wf_facts();
                            K::law_consts();
                        }
                        row_sub_scaled(&mut m, r3, pivot_row, factor, pc);
                        proof {
                            let target = spec_vec_sub(m3[ri], spec_vec_scl(m3[pr], factor));
                            assert forall|t: int| 0 <= t < cols implies spec_row_elim(
                                m4,
                                ri,
                                pr,
                                factor,
                                pc as int,
                            )[t] == target[t] by {
                                if t < pc {
                                    assert(m3[pr][t] == K::spec_zero());
                                    lemma_zero_mul::<K>(factor);
                                    lemma_sub_zero::<K>(m3[ri][t]);
                                } else {
                                    K::law_mul_comm(factor, m3[pr][t]);
                                }
                            }
                            assert(m@[ri] =~= target);
                            let nr = spec_vec_sub(rr[ri], spec_vec_scl(rr[pr], factor));
                            lemma_matmul_update_row(rr, self@, cn, ri, nr);
                            assert forall|j: int| 0 <= j < cn implies spec_dot(
                                nr,
                                spec_col(self@, j),
                            ) == target[j] by {
                                lemma_col_wf::<K>(self@, j);
                                lemma_dot_sub_scl::<K>(rr[ri], rr[pr], factor, spec_col(self@, j));
                                assert(spec_dot(rr[ri], spec_col(self@, j)) == m4[ri][j]);
                                assert(spec_dot(rr[pr], spec_col(self@, j)) == m4[pr][j]);
                                assert(m4[ri] == m3[ri] && m4[pr] == m3[pr]);
                                if j < pc {
                                    assert(m3[pr][j] == K::spec_zero());
                                    lemma_zero_mul::<K>(factor);
                                    K::law_mul_comm(m3[pr][j], factor);
                                    lemma_sub_zero::<K>(m3[ri][j]);
                                    assert(target[j] == m3[ri][j]);
                                } else {
                                    K::law_mul_comm(m3[pr][j], factor);
                                }
                            }
                            assert(Seq::new(cn, |j: int| spec_dot(nr, spec_col(self@, j))) =~= (
                            target));
                            assert(spec_matmul(rr.update(ri, nr), self@, cn) =~= m@);
                            lemma_wf_vec_ops::<K>(rr[pr], rr[pr], factor);
                            lemma_wf_vec_ops::<K>(rr[ri], spec_vec_scl(rr[pr], factor), factor);
                            let rrn = rr.update(ri, nr);
                            assert forall|i: int| 0 <= i < rrn.len() implies wf_seq(
                                #[trigger] rrn[i],
                            ) by {
                                assert(rrn[i] == rr[i] || rrn[i] == nr);
                            }
                            rr = rrn;
                            let ssn = col_elim(ss, pr, ri, factor);
                            lemma_matmul_col_elim::<K>(ss, m4, cn, pr, ri, factor);
                            assert(m@ =~= m4.update(
                                ri,
                                spec_vec_sub(m4[ri], spec_vec_scl(m4[pr], factor)),
                            ));
                            assert forall|i: int| 0 <= i < ssn.len() implies (
                            #[trigger] ssn[i]).len() == rows && wf_seq(ssn[i]) by {
                                assert forall|t: int| 0 <= t < ssn[i].len() implies (
                                #[trigger] ssn[i][t]).wf() by {
                                    if t == pr {
                                        K::law_wf(ss[i][ri], factor);
                                        K::law_wf(ss[i][pr], ss[i][ri].spec_mul(factor));
                                        assert(ssn[i][t] == ss[i][pr].spec_add(
                                            ss[i][ri].spec_mul(factor),
                                        ));
                                    } else {
                                        assert(ssn[i][t] == ss[i][t]);
                                    }
                                }
                            }
                            ss = ssn;
                            assert(factor == m3[ri][pc as int]);
                        }
                    }
                    r3 = r3 + 1;
                }
                proof {
                    // away from the pivot row, the pivot column is
                    // cleared and the columns to its left are untouched
                    assert forall|i: int, j: int|
                        0 <= i < rows && i != pr && 0 <= j < pc + 1 implies #[trigger] m@[i][j]
                        == (if j < pc {
                        m3[i][j]
                    } else {
                        K::spec_zero()
                    }) by {
                        let f = m3[i][pc as int];
                        assert(m@[i] == spec_vec_sub(m3[i], spec_vec_scl(m3[pr], f)));
                        if j < pc {
                            assert(m3[pr][j] == K::spec_zero());
                            lemma_zero_mul::<K>(f);
                            K::law_mul_comm(m3[pr][j], f);
                            lemma_sub_zero::<K>(m3[i][j]);
                        } else {
                            crate::field::lemma_one_mul::<K>(f);
                            K::law_mul_comm(m3[pr][j], f);
                            lemma_sub_self::<K>(f);
                        }
                    }
                    assert forall|i: int, j: int|
                        pivot_row + 1 <= i < rows && 0 <= j < pc + 1 implies #[trigger] m@[i][j]
                        == K::spec_zero() by {
                        assert(m@[i][j] == (if j < pc {
                            m3[i][j]
                        } else {
                            K::spec_zero()
                        }));
                    }
                    pivs = pivs.push(pc as int);
                    // the pivot structure now includes the new pivot
                    assert forall|k: int| 0 <= k < pivs.len() implies m@[k][#[trigger] pivs[k]]
                        == K::spec_one() by {
                        if k < pivot_row {
                            assert(m@[k][pivs[k]] == m3[k][pivs[k]]);
                        } else {
                            assert(pivs[k] == pc as int);
                            assert(m@[pr][pc as int] == m3[pr][pc as int]);
                        }
                    }
                    assert forall|k: int, r: int|
                        0 <= k < pivs.len() && 0 <= r < rows && r != k implies #[trigger] m@[r][
                    pivs[k]] == K::spec_zero() by {
                        if k < pivot_row {
                            if r == pr {
                                assert(m@[pr] == m3[pr]);
                                assert(m3[pr][pivs[k]] == K::spec_zero());
                            } else {
                                assert(m@[r][pivs[k]] == m3[r][pivs[k]]);
                            }
                        } else {
                            assert(pivs[k] == pc as int);
                            assert(m@[r][pc as int] == K::spec_zero());
                        }
                    }
                    assert forall|k: int, j: int|
                        0 <= k < pivs.len() && 0 <= j < pivs[k] implies #[trigger] m@[k][j]
                        == K::spec_zero() by {
                        if k < pivot_row {
                            assert(m@[k][j] == m3[k][j]);
                            assert(m3[k][j] == K::spec_zero());
                        } else {
                            assert(m@[pr] == m3[pr]);
                            assert(m3[pr][j] == K::spec_zero());
                        }
                    }
                    if is_id {
                        assert forall|i: int| 0 <= i < rows implies #[trigger] m@[i] == m3[i] by {
                            if i != pr {
                                let f = m3[i][pc as int];
                                assert(m3[i][pc as int] == spec_identity::<K>(
                                    rows as nat,
                                )[i][pc as int]);
                                assert(f == K::spec_zero());
                                assert forall|t: int| 0 <= t < cols implies #[trigger] m@[i][t]
                                    == m3[i][t] by {
                                    K::law_mul_zero(m3[pr][t]);
                                    lemma_sub_zero::<K>(m3[i][t]);
                                }
                                assert(m@[i] =~= m3[i]);
                            }
                        }
                        assert(m@ =~= m3);
                    }
                }
                pivot_row = pivot_row + 1;
                pc = pc + 1;
            }
        }
        proof {
            assert(mat_dims(rr, self@.len(), self@.len()) && wf_mat(rr) && m@ == spec_matmul(
                rr,
                self@,
                mat_cols(self@),
            ));
            assert(mat_dims(ss, self@.len(), self@.len()) && wf_mat(ss) && self@ == spec_matmul(
                ss,
                m@,
                mat_cols(self@),
            ));
            assert forall|r2: int, j: int|
                pivs.len() <= r2 < rows && 0 <= j < cols implies #[trigger] m@[r2][j]
                == K::spec_zero() by {}
            assert(rref_form(m@, pivs));
            if is_id {
                assert(pc == cols || pivot_row == rows);
                assert(m@ == self@);
            }
        }
        m
    }
}

/// Every entry strictly below the main diagonal is zero.
pub open spec fn spec_upper_triangular<K: Field>(m: Seq<Seq<K>>) -> bool {
    forall|i: int, j: int| 0 <= j < i < m.len() ==> #[trigger] m[i][j] == K::spec_zero()
}

/// Every entry off the main diagonal is zero.
pub open spec fn spec_is_diagonal<K: Field>(m: Seq<Seq<K>>) -> bool {
    forall|i: int, j: int|
        0 <= i < m.len() && 0 <= j < mat_cols(m) && i != j ==> #[trigger] m[i][j]
            == K::spec_zero()
}

/// The product of the first `k` diagonal entries, folded from the
/// multiplicative identity.
pub open spec fn diag_prod_prefix<K: Field>(m: Seq<Seq<K>>, k: int) -> K
    decreases k,
{
    if k <= 0 {
        K::spec_one()
    } else {
        diag_prod_prefix(m, k - 1).spec_mul(m[k - 1][k - 1])
    }
}

/// The product of all diagonal entries.
pub open spec fn spec_diag_prod<K: Field>(m: Seq<Seq<K>>) -> K {
    diag_prod_prefix(m, m.len() as int)
}

/// A square diagonal matrix is upper triangular.
pub proof fn lemma_diagonal_is_upper_triangular<K: Field>(m: Seq<Seq<K>>)
    requires
        spec_is_diagonal(m),
        m.len() == mat_cols(m),
    ensures
        spec_upper_triangular(m),
{
}

/// A zero on the diagonal annihilates the diagonal product.
proof fn lemma_diag_prod_zero<K: Field>(m: Seq<Seq<K>>, k: int, i: int)
    requires
        0 <= i < k,
        m[i][i] == K::spec_zero(),
    ensures
        diag_prod_prefix(m, k) == K::spec_zero(),
    decreases k,
{
    if k - 1 == i {
        K::law_mul_zero(diag_prod_prefix(m, k - 1));
    } else {
        lemma_diag_prod_zero::<K>(m, k - 1, i);
        lemma_zero_mul::<K>(m[k - 1][k - 1]);
    }
}

/// A mismatch against the identity in the left block of the reduced
/// augmented form certifies that the matrix has no left inverse: the
/// pivot-free column yields a nonzero vector that the matrix sends to
/// zero.
proof fn lemma_singular_no_left_inverse<K: Field>(
    a: Seq<Seq<K>>,
    augv: Seq<Seq<K>>,
    ev: Seq<Seq<K>>,
    n: nat,
    bad_i: int,
    bad_j: int,
)
    requires
        mat_dims(a, n, n),
        wf_mat(a),
        augv == Seq::new(n, |i: int| a[i] + spec_identity::<K>(n)[i]),
        mat_dims(ev, n, (n + n) as nat),
        wf_mat(ev),
        exists|pv: Seq<int>| #[trigger] rref_form(ev, pv),
        exists|t: Seq<Seq<K>>|
            mat_dims(t, n, n) && wf_mat(t) && augv == #[trigger] spec_matmul(
                t,
                ev,
                (n + n) as nat,
            ),
        0 <= bad_i < n,
        0 <= bad_j < n,
        ev[bad_i][bad_j] != spec_identity::<K>(n)[bad_i][bad_j],
    ensures
        forall|binv: Seq<Seq<K>>|
            mat_dims(binv, n, n) && wf_mat(binv) ==> #[trigger] spec_matmul(binv, a, n)
                != spec_identity::<K>(n),
{
                                    K::law_consts();
    let nn = n as int;
    let pv = choose|pv: Seq<int>| #[trigger] rref_form(ev, pv);
    let s2 = choose|t: Seq<Seq<K>>|
        mat_dims(t, n, n) && wf_mat(t) && augv == #[trigger] spec_matmul(
            t,
            ev,
            (n + n) as nat,
        );
    // some column of the left block carries no pivot;
    // otherwise the left block would be the identity, against
    // the recorded mismatch
    if forall|c0: int| 0 <= c0 < nn ==> #[trigger] is_piv_col(pv, c0) {
        lemma_full_pivots(pv, nn);
        assert(pv[bad_j] == bad_j);
        if bad_i == bad_j {
            assert(ev[bad_i][pv[bad_j]] == K::spec_one());
        } else {
            assert(ev[bad_i][pv[bad_j]] == K::spec_zero());
        }
        assert(false);
    }
    let c = choose|c0: int| 0 <= c0 < nn && !#[trigger] is_piv_col(pv, c0);
    // the certificate: a nonzero vector that the matrix
    // sends to zero, read off the pivot-free column
    let y = Seq::new(
        n,
        |t: int|
            if t == c {
                K::spec_one().spec_neg()
            } else if is_piv_col(pv, t) {
                ev[piv_of(pv, t)][c]
            } else {
                K::spec_zero()
            },
    );
    K::law_wf(K::spec_one(), K::spec_one());
    assert forall|t: int| 0 <= t < nn implies (#[trigger] y[t]).wf() by {
        if t != c && is_piv_col(pv, t) {
            let k = piv_of(pv, t);
            assert(0 <= k < pv.len() && pv[k] == t);
            assert(y[t] == ev[k][c]);
        }
    }
    crate::field::lemma_neg_one_nonzero::<K>();
    // the left block of the echelon form
    let el = Seq::new(n, |t: int| ev[t].take(nn));
    assert forall|t: int| 0 <= t < nn implies (#[trigger] el[t]).len() == nn
        && wf_seq(el[t]) by {
        assert forall|u: int| 0 <= u < nn implies (#[trigger] el[t][u]).wf() by {
            assert(el[t][u] == ev[t][u]);
        }
    }
    // the left block annihilates the certificate
    assert forall|r: int| 0 <= r < nn implies #[trigger] spec_matvec(el, y)[r]
        == K::spec_zero() by {
        let q = spec_vec_mul(el[r], y);
        assert forall|t: int|
            0 <= t < nn && t != c && (!is_piv_col(pv, t) || piv_of(pv, t)
                != r) implies #[trigger] q[t] == K::spec_zero() by {
            if is_piv_col(pv, t) {
                let k = piv_of(pv, t);
                assert(0 <= k < pv.len() && pv[k] == t);
                assert(k != r);
                assert(ev[r][pv[k]] == K::spec_zero());
                assert(el[r][t] == K::spec_zero());
                lemma_zero_mul::<K>(y[t]);
            } else {
                assert(y[t] == K::spec_zero());
                K::law_mul_zero(el[r][t]);
            }
        }
        if r < pv.len() && pv[r] < nn {
            // the row's own pivot column and the pivot-free
            // column cancel each other
            assert(!is_piv_col(pv, c));
            assert(pv[r] != c);
            assert(is_piv_col(pv, pv[r]));
            let k2 = piv_of(pv, pv[r]);
            assert(0 <= k2 < pv.len() && pv[k2] == pv[r]);
            if k2 < r {
                assert(pv[k2] < pv[r]);
            }
            if r < k2 {
                assert(pv[r] < pv[k2]);
            }
            assert(k2 == r);
            assert(y[pv[r]] == ev[r][c]);
            assert(ev[r][pv[r]] == K::spec_one());
            assert(el[r][pv[r]] == K::spec_one());
            crate::field::lemma_one_mul::<K>(ev[r][c]);
            K::law_mul_comm(K::spec_one(), ev[r][c]);
            assert(q[pv[r]] == ev[r][c]);
            assert(el[r][c] == ev[r][c]);
            crate::field::lemma_mul_neg::<K>(ev[r][c], K::spec_one());
            K::law_mul_one(ev[r][c]);
            assert(q[c] == ev[r][c].spec_neg());
            assert(ev[r][c].wf());
            K::law_wf(ev[r][c], ev[r][c]);
            assert(q[pv[r]].wf() && q[c].wf());
            assert forall|t: int|
                0 <= t < nn && t != pv[r] && t != c implies q[t]
                == K::spec_zero() by {
                if is_piv_col(pv, t) {
                    let k = piv_of(pv, t);
                    assert(0 <= k < pv.len() && pv[k] == t);
                    if k == r {
                        assert(pv[k] == pv[r]);
                    }
                    assert(k != r);
                }
            }
            lemma_sum_two::<K>(q, pv[r], c);
            K::law_add_neg(ev[r][c]);
        } else {
            // no pivot lands in the left block on this row,
            // so the whole product row vanishes
            if r < pv.len() {
                assert(c < pv[r]);
                assert(ev[r][c] == K::spec_zero());
            } else {
                assert(ev[r][c] == K::spec_zero());
            }
            assert(el[r][c] == K::spec_zero());
            assert forall|t: int| 0 <= t < nn implies q[t] == K::spec_zero() by {
                if t == c {
                    lemma_zero_mul::<K>(y[t]);
                } else if is_piv_col(pv, t) {
                    let k = piv_of(pv, t);
                    assert(0 <= k < pv.len() && pv[k] == t);
                    if k == r {
                        assert(pv[r] == t < nn);
                    }
                    assert(k != r);
                }
            }
            lemma_sum_zeros::<K>(q);
        }
    }
    // the input equals its transform applied to the left
    // block, so it annihilates the certificate too
    assert forall|t: int, u: int| 0 <= t < nn && 0 <= u < nn implies
        #[trigger] spec_matmul(s2, el, n)[t][u] == a[t][u] by {
        assert forall|v2: int| 0 <= v2 < nn implies spec_col(el, u)[v2] == spec_col(
            ev,
            u,
        )[v2] by {
            assert(el[v2][u] == ev[v2][u]);
        }
        assert(spec_col(el, u) =~= spec_col(ev, u));
        assert(augv[t][u] == spec_dot(s2[t], spec_col(ev, u)));
        assert(augv[t] == a[t] + spec_identity::<K>(n)[t]);
        assert(augv[t][u] == a[t][u]);
    }
    assert forall|t: int| 0 <= t < nn implies #[trigger] spec_matmul(
        s2,
        el,
        n,
    )[t] == a[t] by {
        assert(spec_matmul(s2, el, n)[t] =~= a[t]);
    }
    assert(spec_matmul(s2, el, n) =~= a);
    lemma_matvec_assoc::<K>(s2, el, y);
    let ely = spec_matvec(el, y);
    lemma_matvec_zeros::<K>(s2, ely);
    assert forall|t: int| 0 <= t < nn implies #[trigger] spec_matvec(a, y)[t]
        == K::spec_zero() by {
        assert(spec_matvec(a, y)[t] == spec_matvec(
            spec_matmul(s2, el, n),
            y,
        )[t]);
    }
    // hence nothing multiplies the input to the identity
    assert forall|binv: Seq<Seq<K>>|
        mat_dims(binv, n, n) && wf_mat(binv) implies
        #[trigger] spec_matmul(binv, a, n) != spec_identity::<K>(
        n,
    ) by {
        if spec_matmul(binv, a, n) == spec_identity::<K>(n) {
            lemma_matvec_assoc::<K>(binv, a, y);
            lemma_matvec_identity::<K>(y);
            let ay = spec_matvec(a, y);
            lemma_matvec_zeros::<K>(binv, ay);
            assert(spec_matvec(spec_identity::<K>(n), y)[c] == y[c]);
            assert(spec_matvec(binv, ay)[c] == K::spec_zero());
            assert(y[c] == K::spec_one().spec_neg());
            assert(false);
        }
    }
}

impl<K: Field> Matrix<K> {
    /// The determinant of a square matrix, by pivoted elimination to
    /// upper-triangular form: the product of the pivots, negated once per
    /// row swap; a column with no nonzero pivot candidate gives exactly
    /// the additive identity. Fails exactly when the matrix is not
    /// square. The input is not modified.
    pub fn determinant(&self) -> (r: Result<K, LinalgError>)
        requires
            self.wf(),
        ensures
            r is Ok <==> self@.len() == mat_cols(self@),
            r is Err ==> r->Err_0 == LinalgError::NotSquare,
            r is Ok ==> r->Ok_0.wf(),
            (r is Ok && spec_upper_triangular(self@)) ==> r->Ok_0 == spec_diag_prod(self@),
    {
        let n = self.rows();
        if self.cols() != n {
            return Err(LinalgError::NotSquare);
        }
        proof {
            K::law_consts();
        }
        let mut m = self.clone_mat();
        let mut det = K::one();
        let mut neg = false;
        let ghost is_ut = spec_upper_triangular(self@);
        let mut col: usize = 0;
        while col < n
            invariant
                self.wf(),
                m.wf(),
                n == self@.len(),
                n == mat_cols(self@),
                m@.len() == n,
                mat_cols(m@) == n,
                col <= n,
                det.wf(),
                is_ut == spec_upper_triangular(self@),
                is_ut ==> m@ == self@ && det == diag_prod_prefix(self@, col as int) && !neg,
            decreases n - col,
        {
            proof {
                self.lemma_wf_facts();
                m.lemma_wf_facts();
                K::law_consts();
            }
            let best = find_pivot(&m, col, col);
            let pv = m.at(best, col);
            if pv.eq_val(K::zero()) {
                proof {
                    if is_ut {
                        assert(m@[col as int][col as int] == K::spec_zero());
                        lemma_diag_prod_zero::<K>(self@, n as int, col as int);
                    }
                }
                return Ok(K::zero());
            }
            proof {
                if is_ut {
                    assert forall|t: int| col < t < n implies m@[t][col as int]
                        == K::spec_zero() by {
                        assert(self@[t][col as int] == K::spec_zero());
                    }
                    assert(best == col);
                }
            }
            if best != col {
                m.swap_rows(col, best);
                neg = !neg;
            }
            let pivot = m.at(col, col);
            proof {
                assert(pivot == pv);
                K::law_wf(det, pivot);
                m.lemma_wf_facts();
            }
            let ghost det_prev = det;
            det = det.mul(pivot);
            let mut r3: usize = col + 1;
            while r3 < n
                invariant
                    self.wf(),
                    m.wf(),
                    n == self@.len(),
                    n == mat_cols(self@),
                    m@.len() == n,
                    mat_cols(m@) == n,
                    col < n,
                    col + 1 <= r3 <= n,
                    pivot.wf(),
                    pivot != K::spec_zero(),
                    is_ut == spec_upper_triangular(self@),
                    is_ut ==> m@ == self@,
                decreases n - r3,
            {
                proof {
                    self.lemma_wf_facts();
                    m.lemma_wf_facts();
                    K::law_consts();
                }
                proof {
                    K::law_wf(m@[r3 as int][col as int], pivot);
                }
                let factor = m.at(r3, col).div(pivot);
                let ghost m4 = m@;
                row_sub_scaled(&mut m, r3, col, factor, col);
                proof {
                    if is_ut {
                        assert(m4[r3 as int][col as int] == K::spec_zero());
                        lemma_zero_div::<K>(pivot);
                        assert(factor == K::spec_zero());
                        assert forall|t: int| 0 <= t < n implies spec_row_elim(
                            m4,
                            r3 as int,
                            col as int,
                            factor,
                            col as int,
                        )[t] == m4[r3 as int][t] by {
                            if col <= t {
                                lemma_zero_mul::<K>(m4[col as int][t]);
                                lemma_sub_zero::<K>(m4[r3 as int][t]);
                            }
                        }
                        assert(m@[r3 as int] =~= m4[r3 as int]);
                        assert(m@ =~= m4);
                    }
                }
                r3 = r3 + 1;
            }
            col = col + 1;
        }
        if neg {
            proof {
                K::law_wf(det, det);
            }
            Ok(det.neg())
        } else {
            Ok(det)
        }
    }

    /// The inverse of a square matrix, read off the right half of the
    /// reduced row-echelon form of the augmented matrix `[A | I]`. Fails
    /// with [`LinalgError::NotSquare`] exactly when the matrix is not
    /// square, and with [`LinalgError::Singular`] when the left half does
    /// not reduce to the identity. A returned inverse `B` satisfies
    /// `B * A == I` exactly. The input is not modified.
    pub fn inverse(&self) -> (r: Result<Matrix<K>, LinalgError>)
        requires
            self.wf(),
        ensures
            (self@.len() != mat_cols(self@)) <==> (r is Err && r->Err_0
                == LinalgError::NotSquare),
            r is Err ==> r->Err_0 == LinalgError::NotSquare || r->Err_0 == LinalgError::Singular,
            r is Ok ==> r->Ok_0.wf() && r->Ok_0@.len() == self@.len() && mat_cols(r->Ok_0@)
                == self@.len() && spec_matmul(r->Ok_0@, self@, self@.len())
                == spec_identity::<K>(self@.len()),
            r is Ok ==> spec_matmul(self@, r->Ok_0@, self@.len()) == spec_identity::<K>(
                self@.len(),
            ),
            (r is Err && r->Err_0 == LinalgError::Singular) ==> (forall|binv: Seq<Seq<K>>|
                mat_dims(binv, self@.len(), self@.len()) && wf_mat(binv)
                    ==> #[trigger] spec_matmul(binv, self@, self@.len()) != spec_identity::<K>(
                    self@.len(),
                )),
    {
        let n = self.rows();
        if self.cols() != n {
            return Err(LinalgError::NotSquare);
        }
        proof {
            self.lemma_wf_facts();
            K::law_consts();
        }
        let ghost idm = spec_identity::<K>(n as nat);
        let ghost augv = Seq::new(n as nat, |i: int| self@[i] + spec_identity::<K>(n as nat)[i]);
        let mut data: Vec<Vec<K>> = Vec::new();
        let mut i: usize = 0;
        while i < n
            invariant
                self.wf(),
                n == self@.len(),
                n == mat_cols(self@),
                idm == spec_identity::<K>(n as nat),
                augv == Seq::new(n as nat, |t: int| self@[t] + idm[t]),
                i <= n,
                data@.len() == i,
                forall|t: int| 0 <= t < i ==> (#[trigger] data@[t])@ == augv[t],
                forall|t: int| 0 <= t < i ==> (#[trigger] data@[t])@.len() == n + n,
                forall|t: int| 0 <= t < i ==> wf_seq((#[trigger] data@[t])@),
            decreases n - i,
        {
            proof {
                self.lemma_wf_facts();
                K::law_consts();
            }
            let mut row: Vec<K> = Vec::new();
            let mut j: usize = 0;
            while j < n
                invariant
                    self.wf(),
                    n == self@.len(),
                    n == mat_cols(self@),
                    i < n,
                    j <= n,
                    row@.len() == j,
                    forall|t: int| 0 <= t < j ==> row@[t] == self@[i as int][t],
                    wf_seq(row@),
                decreases n - j,
            {
                row.push(self.at(i, j));
                j = j + 1;
            }
            let mut j: usize = 0;
            while j < n
                invariant
                    self.wf(),
                    n == self@.len(),
                    n == mat_cols(self@),
                    i < n,
                    j <= n,
                    row@.len() == n + j,
                    forall|t: int| 0 <= t < n ==> row@[t] == self@[i as int][t],
                    forall|t: int|
                        n <= t < n + j ==> row@[t] == (if t - n == i {
                            K::spec_one()
                        } else {
                            K::spec_zero()
                        }),
                    wf_seq(row@),
                    K::spec_zero().wf(),
                    K::spec_one().wf(),
                decreases n - j,
            {
                if j == i {
                    row.push(K::one());
                } else {
                    row.push(K::zero());
                }
                j = j + 1;
            }
            proof {
                assert(row@ =~= self@[i as int] + idm[i as int]);
            }
            data.push(row);
            i = i + 1;
        }
        let cols_aug: usize = if n == 0 {
            0
        } else {
            data[0].len()
        };
        proof {
            if n > 0 {
                assert(data@[0]@.len() == n + n);
            }
        }
        let aug = Matrix::from_rows(data, n, cols_aug);
        proof {
            assert(aug@ =~= augv);
            if n > 0 {
                assert(mat_cols(aug@) == n + n);
            }
        }
        let e = aug.row_echelon();
        let ghost w = choose|w: Seq<Seq<K>>|
            mat_dims(w, aug@.len(), aug@.len()) && wf_mat(w) && e@ == #[trigger] spec_matmul(
                w,
                aug@,
                mat_cols(aug@),
            );
        let mut left_ok = true;
        let ghost mut bad_i: int = 0;
        let ghost mut bad_j: int = 0;
        let mut i: usize = 0;
        while i < n
            invariant
                n == e@.len(),
                mat_cols(e@) == (if n == 0 {
                    0int
                } else {
                    n + n
                }),
                e.wf(),
                i <= n,
                n == self@.len(),
                n == mat_cols(self@),
                idm == spec_identity::<K>(n as nat),
                left_ok ==> (forall|t: int, u: int|
                    0 <= t < i && 0 <= u < n ==> #[trigger] e@[t][u] == idm[t][u]),
                !left_ok ==> 0 <= bad_i < n && 0 <= bad_j < n && e@[bad_i][bad_j]
                    != idm[bad_i][bad_j],
                K::spec_zero().wf(),
                K::spec_one().wf(),
                K::spec_zero() != K::spec_one(),
            decreases n - i,
        {
            let mut j: usize = 0;
            while j < n
                invariant
                    n == e@.len(),
                    mat_cols(e@) == n + n,
                    e.wf(),
                    i < n,
                    j <= n,
                    n == self@.len(),
                    n == mat_cols(self@),
                    idm == spec_identity::<K>(n as nat),
                    left_ok ==> (forall|t: int, u: int|
                        0 <= t < i && 0 <= u < n ==> #[trigger] e@[t][u] == idm[t][u]),
                    left_ok ==> (forall|u: int|
                        0 <= u < j ==> #[trigger] e@[i as int][u] == idm[i as int][u]),
                    !left_ok ==> 0 <= bad_i < n && 0 <= bad_j < n && e@[bad_i][bad_j]
                        != idm[bad_i][bad_j],
                    K::spec_zero().wf(),
                    K::spec_one().wf(),
                    K::spec_zero() != K::spec_one(),
                decreases n - j,
            {
                let want = if j == i {
                    K::one()
                } else {
                    K::zero()
                };
                if !e.at(i, j).eq_val(want) {
                    left_ok = false;
                    proof {
                        bad_i = i as int;
                        bad_j = j as int;
                    }
                }
                j = j + 1;
            }
            i = i + 1;
        }
        if !left_ok {
            proof {
                self.lemma_wf_facts();
                e.lemma_wf_facts();
                let a2n = (n + n) as nat;
                assert(mat_cols(aug@) == a2n);
                let w2 = choose|t: Seq<Seq<K>>|
                    mat_dims(t, aug@.len(), aug@.len()) && wf_mat(t) && aug@
                        == #[trigger] spec_matmul(t, e@, mat_cols(aug@));
                assert(mat_dims(w2, n as nat, n as nat) && wf_mat(w2) && aug@ == spec_matmul(
                    w2,
                    e@,
                    a2n,
                ));
                assert(e@[bad_i][bad_j] != spec_identity::<K>(n as nat)[bad_i][bad_j]);
                lemma_singular_no_left_inverse::<K>(self@, aug@, e@, n as nat, bad_i, bad_j);
            }
            return Err(LinalgError::Singular);
        }
        let mut bdata: Vec<Vec<K>> = Vec::new();
        let c2 = e.cols();
        let mut i: usize = 0;
        while i < n
            invariant
                n == e@.len(),
                mat_cols(e@) == (if n == 0 {
                    0int
                } else {
                    n + n
                }),
                c2 == mat_cols(e@),
                e.wf(),
                i <= n,
                bdata@.len() == i,
                forall|t: int| 0 <= t < i ==> (#[trigger] bdata@[t])@.len() == n,
                forall|t: int| 0 <= t < i ==> wf_seq((#[trigger] bdata@[t])@),
                forall|t: int, u: int|
                    0 <= t < i && 0 <= u < n ==> #[trigger] (bdata@[t])@[u] == e@[t][n + u],
            decreases n - i,
        {
            let mut row: Vec<K> = Vec::new();
            let mut j: usize = 0;
            while j < n
                invariant
                    n == e@.len(),
                    mat_cols(e@) == n + n,
                    c2 == mat_cols(e@),
                    e.wf(),
                    i < n,
                    j <= n,
                    row@.len() == j,
                    wf_seq(row@),
                    forall|u: int| 0 <= u < j ==> row@[u] == e@[i as int][n + u],
                decreases n - j,
            {
                row.push(e.at(i, n + j));
                j = j + 1;
            }
            bdata.push(row);
            i = i + 1;
        }
        let b = Matrix::from_rows(bdata, n, n);
        proof {
            // split the columns of the augmented product: the left block
            // is W * A, the right block is W * I == W
            assert forall|j: int| 0 <= j < n implies spec_col(aug@, j) =~= spec_col(self@, j) by {
                assert forall|u: int| 0 <= u < n implies spec_col(aug@, j)[u] == spec_col(
                    self@,
                    j,
                )[u] by {
                    assert(aug@[u] == self@[u] + idm[u]);
                    assert(aug@[u][j] == self@[u][j]);
                }
            }
            assert forall|j: int| 0 <= j < n implies spec_col(aug@, n + j) =~= spec_col(
                idm,
                j,
            ) by {
                assert forall|u: int| 0 <= u < n implies spec_col(aug@, n + j)[u] == spec_col(
                    idm,
                    j,
                )[u] by {
                    assert(aug@[u] == self@[u] + idm[u]);
                    assert(aug@[u][n + j] == idm[u][j]);
                }
            }
            // the right half of the echelon form is W itself
            lemma_matmul_identity_right::<K>(w, n as nat);
            assert forall|t: int, u: int| 0 <= t < n && 0 <= u < n implies #[trigger] b@[t][u]
                == w[t][u] by {
                assert(b@[t][u] == e@[t][n + u]);
                assert(e@[t][n + u] == spec_dot(w[t], spec_col(aug@, n + u)));
                assert(spec_matmul(w, idm, n as nat)[t][u] == spec_dot(w[t], spec_col(idm, u)));
            }
            assert forall|t: int| 0 <= t < n implies b@[t] == w[t] by {
                assert(b@[t] =~= w[t]);
            }
            assert(b@ =~= w);
            // the left half was checked to be the identity
            assert forall|t: int, u: int| 0 <= t < n && 0 <= u < n implies #[trigger] spec_matmul(
                b@,
                self@,
                n as nat,
            )[t][u] == idm[t][u] by {
                assert(spec_matmul(b@, self@, n as nat)[t][u] == spec_dot(b@[t], spec_col(self@, u)));
                assert(e@[t][u] == spec_dot(w[t], spec_col(aug@, u)));
                assert(e@[t][u] == idm[t][u]);
            }
            assert forall|t: int| 0 <= t < n implies #[trigger] spec_matmul(b@, self@, n as nat)[t]
                == idm[t] by {
                assert(spec_matmul(b@, self@, n as nat)[t] =~= idm[t]);
            }
            assert(spec_matmul(b@, self@, n as nat) =~= idm);
            // the other direction: the input is the inverse transform of
            // the echelon form, so the product the other way around is
            // the identity as well
            let s2 = choose|t: Seq<Seq<K>>|
                mat_dims(t, aug@.len(), aug@.len()) && wf_mat(t) && aug@ == #[trigger] spec_matmul(
                    t,
                    e@,
                    mat_cols(aug@),
                );
            lemma_matmul_identity_right::<K>(s2, n as nat);
            assert forall|t: int, u: int| 0 <= t < n && 0 <= u < n implies #[trigger] s2[t][u]
                == self@[t][u] by {
                assert forall|v2: int| 0 <= v2 < n implies spec_col(e@, u)[v2] == spec_col(
                    idm,
                    u,
                )[v2] by {
                    assert(e@[v2][u] == idm[v2][u]);
                }
                assert(spec_col(e@, u) =~= spec_col(idm, u));
                assert(aug@[t][u] == spec_dot(s2[t], spec_col(e@, u)));
                assert(spec_matmul(s2, idm, n as nat)[t][u] == spec_dot(s2[t], spec_col(idm, u)));
                assert(aug@[t] == self@[t] + idm[t]);
                assert(aug@[t][u] == self@[t][u]);
            }
            assert forall|t: int| 0 <= t < n implies #[trigger] s2[t] == self@[t] by {
                assert(s2[t] =~= self@[t]);
            }
            assert(s2 =~= self@);
            assert forall|t: int, u: int| 0 <= t < n && 0 <= u < n implies #[trigger] spec_matmul(
                self@,
                b@,
                n as nat,
            )[t][u] == idm[t][u] by {
                assert forall|v2: int| 0 <= v2 < n implies spec_col(b@, u)[v2] == spec_col(
                    e@,
                    n + u,
                )[v2] by {
                    assert(b@[v2][u] == e@[v2][n + u]);
                }
                assert(spec_col(b@, u) =~= spec_col(e@, n + u));
                assert(spec_matmul(self@, b@, n as nat)[t][u] == spec_dot(
                    self@[t],
                    spec_col(b@, u),
                ));
                assert(aug@[t][n + u] == spec_dot(s2[t], spec_col(e@, n + u)));
                assert(aug@[t] == self@[t] + idm[t]);
                assert(aug@[t][n + u] == idm[t][u]);
            }
            assert forall|t: int| 0 <= t < n implies #[trigger] spec_matmul(self@, b@, n as nat)[t]
                == idm[t] by {
                assert(spec_matmul(self@, b@, n as nat)[t] =~= idm[t]);
            }
            assert(spec_matmul(self@, b@, n as nat) =~= idm);
        }
        Ok(b)
    }
}

/// The row with the largest absolute value in column `pc`, among the rows
/// from `pivot_row` down; on equal absolute values the lowest index wins.
fn find_pivot<K: Field>(m: &Matrix<K>, pivot_row: usize, pc: usize) -> (best: usize)
    requires
        m.wf(),
        pivot_row < m@.len(),
        pc < mat_cols(m@),
    ensures
        pivot_row <= best < m@.len(),
        m@[best as int][pc as int] == K::spec_zero() ==> (forall|t: int|
            pivot_row <= t < m@.len() ==> m@[t][pc as int] == K::spec_zero()),
        (forall|t: int| pivot_row < t < m@.len() ==> m@[t][pc as int] == K::spec_zero())
            ==> best == pivot_row,
{
    proof {
        m.lemma_wf_facts();
        K::law_consts();
    }
    let rows = m.rows();
    let mut best: usize = pivot_row;
    let mut r2: usize = pivot_row + 1;
    while r2 < rows
        invariant
            m.wf(),
            rows == m@.len(),
            pc < mat_cols(m@),
            pivot_row < rows,
            pivot_row <= best < rows,
            pivot_row + 1 <= r2 <= rows,
            m@[best as int][pc as int] == K::spec_zero() ==> (forall|t: int|
                pivot_row <= t < r2 ==> m@[t][pc as int] == K::spec_zero()),
            (forall|t: int| pivot_row < t < r2 ==> m@[t][pc as int] == K::spec_zero()) ==> best
                == pivot_row,
        decreases rows - r2,
    {
        let cur = m.at(best, pc).abs();
        let cand = m.at(r2, pc).abs();
        let ghost bv = m@[best as int][pc as int];
        let ghost cv = m@[r2 as int][pc as int];
        proof {
            K::law_consts();
            K::law_wf(bv, bv);
            K::law_wf(cv, cv);
            K::law_abs_floor(bv);
            K::law_abs_floor(cv);
            K::law_abs_zero(bv);
            K::law_abs_zero(cv);
            if cv != K::spec_zero() && bv != K::spec_zero() {
            } else if cv == K::spec_zero() {
                // a zero candidate never displaces the current best
                assert(!cur.spec_lt(cand));
            } else if bv == K::spec_zero() && cv != K::spec_zero() {
                // a nonzero candidate always displaces a zero best
                K::law_lt_connex(bv.spec_abs(), cv.spec_abs());
                assert(cur.spec_lt(cand));
            }
        }
        if cur.lt(cand) {
            best = r2;
        }
        r2 = r2 + 1;
    }
    best
}

/// Divide every element of row `i` by `pivot`, in place.
fn scale_row<K: Field>(m: &mut Matrix<K>, i: usize, pivot: K)
    requires
        old(m).wf(),
        i < old(m)@.len(),
        pivot.wf(),
        pivot != K::spec_zero(),
    ensures
        final(m).wf(),
        final(m)@ == old(m)@.update(i as int, spec_vec_div(old(m)@[i as int], pivot)),
        final(m)@.len() == old(m)@.len(),
        mat_cols(final(m)@) == mat_cols(old(m)@),
{
    proof {
        old(m).lemma_wf_facts();
    }
    let cols = m.cols();
    let mut j: usize = 0;
    while j < cols
        invariant
            m.wf(),
            old(m).wf(),
            i < old(m)@.len(),
            pivot.wf(),
            pivot != K::spec_zero(),
            m@.len() == old(m)@.len(),
            mat_cols(m@) == mat_cols(old(m)@),
            cols == mat_cols(old(m)@),
            j <= cols,
            m@[i as int].len() == cols,
            forall|t: int|
                0 <= t < j ==> m@[i as int][t] == old(m)@[i as int][t].spec_div(pivot),
            forall|t: int| j <= t < cols ==> m@[i as int][t] == old(m)@[i as int][t],
            forall|t: int| 0 <= t < m@.len() && t != i ==> m@[t] == old(m)@[t],
        decreases cols - j,
    {
        let x = m.at(i, j).div(pivot);
        proof {
            K::law_wf(m@[i as int][j as int], pivot);
        }
        m.set_at(i, j, x);
        j = j + 1;
    }
    proof {
        assert(m@[i as int] =~= spec_vec_div(old(m)@[i as int], pivot));
        assert(m@ =~= old(m)@.update(i as int, spec_vec_div(old(m)@[i as int], pivot)));
    }
}

/// Subtract `f` times row `p` from row `r`, for the columns from `start`
/// on, in place.
fn row_sub_scaled<K: Field>(m: &mut Matrix<K>, r: usize, p: usize, f: K, start: usize)
    requires
        old(m).wf(),
        r < old(m)@.len(),
        p < old(m)@.len(),
        r != p,
        f.wf(),
        start <= mat_cols(old(m)@),
    ensures
        final(m).wf(),
        final(m)@ == old(m)@.update(
            r as int,
            spec_row_elim(old(m)@, r as int, p as int, f, start as int),
        ),
        final(m)@.len() == old(m)@.len(),
        mat_cols(final(m)@) == mat_cols(old(m)@),
{
    proof {
        old(m).lemma_wf_facts();
    }
    let cols = m.cols();
    let ghost target = spec_row_elim(old(m)@, r as int, p as int, f, start as int);
    let mut j: usize = start;
    while j < cols
        invariant
            m.wf(),
            old(m).wf(),
            r < old(m)@.len(),
            p < old(m)@.len(),
            r != p,
            f.wf(),
            target == spec_row_elim(old(m)@, r as int, p as int, f, start as int),
            m@.len() == old(m)@.len(),
            mat_cols(m@) == mat_cols(old(m)@),
            cols == mat_cols(old(m)@),
            start <= j <= cols,
            m@[r as int].len() == cols,
            old(m)@[r as int].len() == cols,
            old(m)@[p as int].len() == cols,
            forall|t: int| 0 <= t < start ==> m@[r as int][t] == old(m)@[r as int][t],
            forall|t: int| start <= t < j ==> m@[r as int][t] == target[t],
            forall|t: int| j <= t < cols ==> m@[r as int][t] == old(m)@[r as int][t],
            forall|t: int| 0 <= t < m@.len() && t != r ==> m@[t] == old(m)@[t],
        decreases cols - j,
    {
        proof {
            K::law_wf(f, old(m)@[p as int][j as int]);
            K::law_wf(m@[r as int][j as int], f.spec_mul(old(m)@[p as int][j as int]));
        }
        let x = m.at(r, j).sub(f.mul(m.at(p, j)));
        m.set_at(r, j, x);
        j = j + 1;
    }
    proof {
        assert(m@[r as int] =~= target);
        assert(m@ =~= old(m)@.update(r as int, target));
    }
}

} // verus!
