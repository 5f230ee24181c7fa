//! The specifications of matrix products, and the algebra of sums of
//! scalars that they rest on: linearity of the dot product, and the unit
//! behaviour of identity rows and columns.

use vstd::prelude::*;
use crate::field::{
    lemma_add_mul, lemma_add_shuffle, lemma_neg_unique, lemma_sub_zero,
    lemma_zero_mul, wf_seq, Field,
};
use crate::matrix::{mat_cols, spec_identity};
use crate::vector::{
    lemma_sum_wf, spec_dot, spec_vec_mul, spec_vec_scl, spec_vec_sub, sum_seq,
};

verus! {

/// Column `j` of a matrix given as rows.
pub open spec fn spec_col<K: Field>(m: Seq<Seq<K>>, j: int) -> Seq<K> {
    Seq::new(m.len(), |t: int| m[t][j])
}

/// The matrix product of `a` and `b`, where `b` has `p` columns: entry
/// `(i, j)` is the dot product of row `i` of `a` with column `j` of `b`.
pub open spec fn spec_matmul<K: Field>(a: Seq<Seq<K>>, b: Seq<Seq<K>>, p: nat) -> Seq<Seq<K>> {
    Seq::new(a.len(), |i: int| Seq::new(p, |j: int| spec_dot(a[i], spec_col(b, j))))
}

/// The matrix-vector product: entry `i` is the dot product of row `i`
/// with `x`.
pub open spec fn spec_matvec<K: Field>(a: Seq<Seq<K>>, x: Seq<K>) -> Seq<K> {
    Seq::new(a.len(), |i: int| spec_dot(a[i], x))
}

/// The transpose: row `j` of the result is column `j` of `m`.
pub open spec fn spec_transpose<K: Field>(m: Seq<Seq<K>>) -> Seq<Seq<K>> {
    Seq::new(mat_cols(m) as int as nat, |j: int| spec_col(m, j))
}

/// The dot product of any two sequences is well-formed.
pub proof fn lemma_dot_wf<K: Field>(u: Seq<K>, v: Seq<K>)
    ensures
        spec_dot(u, v).wf(),
{
    lemma_sum_wf::<K>(spec_vec_mul(u, v));
}

/// Negation distributes over addition.
proof fn lemma_neg_add<K: Field>(a: K, b: K)
    requires
        a.wf(),
        b.wf(),
    ensures
        a.spec_add(b).spec_neg() == a.spec_neg().spec_add(b.spec_neg()),
{
    K::law_wf(a, a);
    K::law_wf(b, b);
    K::law_wf(a.spec_neg(), b.spec_neg());
    lemma_add_shuffle::<K>(a, b, a.spec_neg(), b.spec_neg());
    K::law_add_neg(a);
    K::law_add_neg(b);
    K::law_consts();
    K::law_add_zero(K::spec_zero());
    lemma_neg_unique::<K>(a.spec_add(b), a.spec_neg().spec_add(b.spec_neg()));
}

/// Two differences add to the difference of the sums.
proof fn lemma_sub_shuffle<K: Field>(p: K, q: K, r: K, s: K)
    requires
        q.wf(),
        s.wf(),
    ensures
        p.spec_sub(q).spec_add(r.spec_sub(s)) == p.spec_add(r).spec_sub(q.spec_add(s)),
{
    K::law_sub_def(p, q);
    K::law_sub_def(r, s);
    K::law_sub_def(p.spec_add(r), q.spec_add(s));
    lemma_add_shuffle::<K>(p, q.spec_neg(), r, s.spec_neg());
    lemma_neg_add::<K>(q, s);
}

/// The sum of a scaled sequence is the scaled sum.
pub proof fn lemma_sum_scl<K: Field>(s: Seq<K>, a: K)
    requires
        a.wf(),
    ensures
        sum_seq(spec_vec_scl(s, a)) == sum_seq(s).spec_mul(a),
    decreases s.len(),
{
    if s.len() == 0 {
        assert(spec_vec_scl(s, a).len() == 0);
        lemma_zero_mul::<K>(a);
        K::law_mul_comm(K::spec_zero(), a);
    } else {
        lemma_sum_scl::<K>(s.drop_last(), a);
        assert(spec_vec_scl(s, a).drop_last() =~= spec_vec_scl(s.drop_last(), a));
        assert(spec_vec_scl(s, a).last() == s.last().spec_mul(a));
        lemma_add_mul::<K>(sum_seq(s.drop_last()), s.last(), a);
    }
}

/// The sum of an element-wise difference is the difference of the sums.
pub proof fn lemma_sum_sub<K: Field>(x: Seq<K>, y: Seq<K>)
    requires
        x.len() == y.len(),
        wf_seq(x),
        wf_seq(y),
    ensures
        sum_seq(spec_vec_sub(x, y)) == sum_seq(x).spec_sub(sum_seq(y)),
    decreases x.len(),
{
    K::law_consts();
    if x.len() == 0 {
        lemma_sub_zero::<K>(K::spec_zero());
    } else {
        lemma_sum_sub::<K>(x.drop_last(), y.drop_last());
        assert(spec_vec_sub(x, y).drop_last() =~= spec_vec_sub(x.drop_last(), y.drop_last()));
        assert(spec_vec_sub(x, y).last() == x.last().spec_sub(y.last()));
        lemma_sum_wf::<K>(y.drop_last());
        lemma_sub_shuffle::<K>(
            sum_seq(x.drop_last()),
            sum_seq(y.drop_last()),
            x.last(),
            y.last(),
        );
    }
}

/// The dot product is linear in a scaling of its left operand.
pub proof fn lemma_dot_scl<K: Field>(u: Seq<K>, a: K, c: Seq<K>)
    requires
        u.len() == c.len(),
        wf_seq(u),
        wf_seq(c),
        a.wf(),
    ensures
        spec_dot(spec_vec_scl(u, a), c) == spec_dot(u, c).spec_mul(a),
{
    assert forall|i: int| 0 <= i < u.len() implies spec_vec_mul(spec_vec_scl(u, a), c)[i]
        == spec_vec_scl(spec_vec_mul(u, c), a)[i] by {
        // (u_i * a) * c_i == (u_i * c_i) * a
        K::law_mul_assoc(u[i], a, c[i]);
        K::law_mul_comm(a, c[i]);
        K::law_mul_assoc(u[i], c[i], a);
    }
    assert(spec_vec_mul(spec_vec_scl(u, a), c) =~= spec_vec_scl(spec_vec_mul(u, c), a));
    lemma_sum_scl::<K>(spec_vec_mul(u, c), a);
}

/// The dot product of a row minus a scaled row: the same combination of
/// the two dot products.
pub proof fn lemma_dot_sub_scl<K: Field>(r1: Seq<K>, r2: Seq<K>, f: K, c: Seq<K>)
    requires
        r1.len() == c.len(),
        r2.len() == c.len(),
        wf_seq(r1),
        wf_seq(r2),
        wf_seq(c),
        f.wf(),
    ensures
        spec_dot(spec_vec_sub(r1, spec_vec_scl(r2, f)), c) == spec_dot(r1, c).spec_sub(
            spec_dot(r2, c).spec_mul(f),
        ),
{
    let scaled = spec_vec_scl(r2, f);
    assert forall|i: int| 0 <= i < r1.len() implies spec_vec_mul(spec_vec_sub(r1, scaled), c)[i]
        == spec_vec_sub(spec_vec_mul(r1, c), spec_vec_scl(spec_vec_mul(r2, c), f))[i] by {
        // (r1_i - r2_i * f) * c_i == r1_i * c_i - (r2_i * c_i) * f
        K::law_wf(r2[i], f);
        crate::field::lemma_sub_mul::<K>(r1[i], r2[i].spec_mul(f), c[i]);
        K::law_mul_assoc(r2[i], f, c[i]);
        K::law_mul_comm(f, c[i]);
        K::law_mul_assoc(r2[i], c[i], f);
    }
    assert(spec_vec_mul(spec_vec_sub(r1, scaled), c) =~= spec_vec_sub(
        spec_vec_mul(r1, c),
        spec_vec_scl(spec_vec_mul(r2, c), f),
    ));
    assert forall|i: int| 0 <= i < r1.len() implies (#[trigger] spec_vec_mul(r1, c)[i]).wf() by {
        K::law_wf(r1[i], c[i]);
    }
    assert forall|i: int| 0 <= i < r1.len() implies (#[trigger] spec_vec_scl(
        spec_vec_mul(r2, c),
        f,
    )[i]).wf() by {
        K::law_wf(r2[i].spec_mul(c[i]), f);
    }
    lemma_sum_sub::<K>(spec_vec_mul(r1, c), spec_vec_scl(spec_vec_mul(r2, c), f));
    lemma_sum_scl::<K>(spec_vec_mul(r2, c), f);
}

/// Replacing one element of a sum exchanges exactly that summand.
pub proof fn lemma_sum_update<K: Field>(s: Seq<K>, p: int, x: K)
    requires
        0 <= p < s.len(),
    ensures
        sum_seq(s.update(p, x)).spec_add(s[p]) == sum_seq(s).spec_add(x),
    decreases s.len(),
{
    let su = s.update(p, x);
    if p == s.len() - 1 {
        assert(su.drop_last() =~= s.drop_last());
        // (D + x) + s[p] == (D + s[p]) + x
        let d = sum_seq(s.drop_last());
        K::law_add_assoc(d, x, s[p]);
        K::law_add_comm(x, s[p]);
        K::law_add_assoc(d, s[p], x);
    } else {
        lemma_sum_update::<K>(s.drop_last(), p, x);
        assert(su.drop_last() =~= s.drop_last().update(p, x));
        assert(su.last() == s.last());
        // from (Du + s[p] == D + x) conclude ((Du + l) + s[p] == (D + l) + x)
        let du = sum_seq(s.drop_last().update(p, x));
        let d = sum_seq(s.drop_last());
        let l = s.last();
        K::law_add_assoc(du, l, s[p]);
        K::law_add_comm(l, s[p]);
        K::law_add_assoc(du, s[p], l);
        K::law_add_assoc(d, x, l);
        K::law_add_comm(x, l);
        K::law_add_assoc(d, l, x);
    }
}

/// Replacing two elements of a sum while preserving their pairwise sum
/// preserves the whole sum.
pub proof fn lemma_two_update_sum<K: Field>(s: Seq<K>, p: int, b: int, xp: K, xb: K)
    requires
        0 <= p < s.len(),
        0 <= b < s.len(),
        p != b,
        xp.spec_add(xb) == s[p].spec_add(s[b]),
    ensures
        sum_seq(s.update(p, xp).update(b, xb)) == sum_seq(s),
{
    let s1 = s.update(p, xp);
    let s2 = s1.update(b, xb);
    lemma_sum_update::<K>(s, p, xp);
    lemma_sum_update::<K>(s1, b, xb);
    assert(s1[b] == s[b]);
    // sum(s2) + (s[b] + s[p]) == (sum(s1) + s[p]) + xb == (sum(s) + xp) + xb
    //                        == sum(s) + (s[p] + s[b])
    K::law_add_assoc(sum_seq(s2), s[b], s[p]);
    K::law_add_assoc(sum_seq(s1), xb, s[p]);
    K::law_add_comm(xb, s[p]);
    K::law_add_assoc(sum_seq(s1), s[p], xb);
    K::law_add_assoc(sum_seq(s), xp, xb);
    K::law_add_comm(s[b], s[p]);
    lemma_sum_wf::<K>(s2);
    lemma_sum_wf::<K>(s);
    crate::field::lemma_add_cancel::<K>(sum_seq(s2), sum_seq(s), s[p].spec_add(s[b]));
}

/// A sequence of zeros has a zero dot product with anything.
pub proof fn lemma_dot_zeros<K: Field>(s: Seq<K>, z: Seq<K>)
    requires
        s.len() == z.len(),
        forall|t: int| 0 <= t < z.len() ==> z[t] == K::spec_zero(),
    ensures
        spec_dot(s, z) == K::spec_zero(),
    decreases s.len(),
{
    K::law_consts();
    if s.len() == 0 {
    } else {
        lemma_dot_zeros::<K>(s.drop_last(), z.drop_last());
        assert(spec_vec_mul(s, z).drop_last() =~= spec_vec_mul(s.drop_last(), z.drop_last()));
        assert(spec_vec_mul(s, z).last() == s.last().spec_mul(K::spec_zero()));
        K::law_mul_zero(s.last());
        K::law_add_zero(K::spec_zero());
    }
}

/// The dot product with a unit sequence picks out one element.
pub proof fn lemma_dot_unit<K: Field>(s: Seq<K>, e: Seq<K>, j: int)
    requires
        s.len() == e.len(),
        0 <= j < e.len(),
        wf_seq(s),
        forall|t: int|
            0 <= t < e.len() ==> e[t] == (if t == j {
                K::spec_one()
            } else {
                K::spec_zero()
            }),
    ensures
        spec_dot(s, e) == s[j],
    decreases s.len(),
{
    K::law_consts();
    let l = s.len() - 1;
    assert(spec_vec_mul(s, e).drop_last() =~= spec_vec_mul(s.drop_last(), e.drop_last()));
    if j == l {
        lemma_dot_zeros::<K>(s.drop_last(), e.drop_last());
        K::law_mul_one(s[j]);
        K::law_add_comm(K::spec_zero(), s[j]);
        K::law_add_zero(s[j]);
    } else {
        lemma_dot_unit::<K>(s.drop_last(), e.drop_last(), j);
        K::law_mul_zero(s[l as int]);
        K::law_add_zero(s[j]);
    }
}

/// The sum of a sequence of zeros is zero.
pub proof fn lemma_sum_zeros<K: Field>(s: Seq<K>)
    requires
        forall|t: int| 0 <= t < s.len() ==> s[t] == K::spec_zero(),
    ensures
        sum_seq(s) == K::spec_zero(),
    decreases s.len(),
{
    K::law_consts();
    if s.len() == 0 {
    } else {
        lemma_sum_zeros::<K>(s.drop_last());
        K::law_add_zero(K::spec_zero());
    }
}

/// The sum of an element-wise sum is the sum of the sums.
pub proof fn lemma_sum_add<K: Field>(x: Seq<K>, y: Seq<K>)
    requires
        x.len() == y.len(),
    ensures
        sum_seq(crate::vector::spec_vec_add(x, y)) == sum_seq(x).spec_add(sum_seq(y)),
    decreases x.len(),
{
    let va = crate::vector::spec_vec_add(x, y);
    K::law_consts();
    if x.len() == 0 {
        K::law_add_zero(K::spec_zero());
    } else {
        lemma_sum_add::<K>(x.drop_last(), y.drop_last());
        assert(va.drop_last() =~= crate::vector::spec_vec_add(x.drop_last(), y.drop_last()));
        assert(va.last() == x.last().spec_add(y.last()));
        lemma_add_shuffle::<K>(sum_seq(x.drop_last()), sum_seq(y.drop_last()), x.last(), y.last());
    }
}

/// A sum whose only nonzero summands sit at two positions is the sum of
/// those two summands.
pub proof fn lemma_sum_two<K: Field>(s: Seq<K>, p: int, q: int)
    requires
        0 <= p < s.len(),
        0 <= q < s.len(),
        p != q,
        s[p].wf(),
        s[q].wf(),
        forall|t: int| 0 <= t < s.len() && t != p && t != q ==> s[t] == K::spec_zero(),
    ensures
        sum_seq(s) == s[p].spec_add(s[q]),
{
    K::law_consts();
    let z = Seq::new(s.len(), |t: int| K::spec_zero());
    let z1 = z.update(p, s[p]);
    let z2 = z1.update(q, s[q]);
    lemma_sum_zeros::<K>(z);
    lemma_sum_update::<K>(z, p, s[p]);
    lemma_sum_wf::<K>(z1);
    K::law_add_zero(sum_seq(z1));
    K::law_add_comm(K::spec_zero(), s[p]);
    K::law_add_zero(s[p]);
    assert(sum_seq(z1) == s[p]);
    lemma_sum_update::<K>(z1, q, s[q]);
    lemma_sum_wf::<K>(z2);
    K::law_add_zero(sum_seq(z2));
    assert(sum_seq(z2) == s[p].spec_add(s[q]));
    assert(s =~= z2);
}

/// The order of a double sum may be exchanged: summing each row and then
/// the row totals equals summing each column and then the column totals.
pub proof fn lemma_sum_exchange<K: Field>(g: Seq<Seq<K>>, c: nat)
    requires
        forall|i: int| 0 <= i < g.len() ==> (#[trigger] g[i]).len() == c,
    ensures
        sum_seq(Seq::new(g.len(), |k: int| sum_seq(g[k]))) == sum_seq(
            Seq::new(c, |t: int| sum_seq(spec_col(g, t))),
        ),
    decreases g.len(),
{
    K::law_consts();
    let rowsums = Seq::new(g.len(), |k: int| sum_seq(g[k]));
    let colsums = Seq::new(c, |t: int| sum_seq(spec_col(g, t)));
    if g.len() == 0 {
        assert forall|t: int| 0 <= t < c implies colsums[t] == K::spec_zero() by {
            assert(spec_col(g, t).len() == 0);
        }
        lemma_sum_zeros::<K>(colsums);
    } else {
        let g1 = g.drop_last();
        let last = g.last();
        lemma_sum_exchange::<K>(g1, c);
        let rowsums1 = Seq::new(g1.len(), |k: int| sum_seq(g1[k]));
        let colsums1 = Seq::new(c, |t: int| sum_seq(spec_col(g1, t)));
        assert(rowsums.drop_last() =~= rowsums1);
        assert(rowsums.last() == sum_seq(last));
        assert forall|t: int| 0 <= t < c implies colsums[t] == colsums1[t].spec_add(last[t]) by {
            assert(spec_col(g, t).drop_last() =~= spec_col(g1, t));
            assert(spec_col(g, t).last() == last[t]);
        }
        assert(colsums =~= crate::vector::spec_vec_add(colsums1, last));
        lemma_sum_add::<K>(colsums1, last);
    }
}

/// Matrix-vector application associates with a matrix product on the
/// left.
pub proof fn lemma_matvec_assoc<K: Field>(b: Seq<Seq<K>>, a: Seq<Seq<K>>, y: Seq<K>)
    requires
        forall|i: int| 0 <= i < b.len() ==> (#[trigger] b[i]).len() == a.len(),
        forall|k: int| 0 <= k < a.len() ==> (#[trigger] a[k]).len() == y.len(),
        forall|i: int| 0 <= i < b.len() ==> wf_seq(#[trigger] b[i]),
        forall|k: int| 0 <= k < a.len() ==> wf_seq(#[trigger] a[k]),
        wf_seq(y),
    ensures
        spec_matvec(spec_matmul(b, a, y.len()), y) == spec_matvec(b, spec_matvec(a, y)),
{
    let c2 = y.len();
    let n2 = a.len();
    assert forall|i: int| 0 <= i < b.len() implies #[trigger] spec_matvec(
        spec_matmul(b, a, c2),
        y,
    )[i] == spec_matvec(b, spec_matvec(a, y))[i] by {
        let g = Seq::new(
            n2,
            |k: int| Seq::new(c2, |t: int| b[i][k].spec_mul(a[k][t]).spec_mul(y[t])),
        );
        let row = spec_matmul(b, a, c2)[i];
        // the left side is the column-wise total of the grid
        assert forall|t: int| 0 <= t < c2 implies spec_vec_mul(row, y)[t] == sum_seq(
            spec_col(g, t),
        ) by {
            let q = spec_vec_mul(b[i], spec_col(a, t));
            lemma_sum_scl::<K>(q, y[t]);
            assert(spec_vec_scl(q, y[t]) =~= spec_col(g, t));
            assert(row[t] == spec_dot(b[i], spec_col(a, t)));
        }
        assert(spec_vec_mul(row, y) =~= Seq::new(c2, |t: int| sum_seq(spec_col(g, t))));
        // the right side is the row-wise total of the grid
        let mv = spec_matvec(a, y);
        assert forall|k: int| 0 <= k < n2 implies spec_vec_mul(b[i], mv)[k] == sum_seq(g[k]) by {
            let qk = spec_vec_mul(a[k], y);
            K::law_mul_comm(b[i][k], sum_seq(qk));
            lemma_sum_scl::<K>(qk, b[i][k]);
            assert forall|t: int| 0 <= t < c2 implies spec_vec_scl(qk, b[i][k])[t] == g[k][t] by {
                // (a_kt * y_t) * b_ik == (b_ik * a_kt) * y_t
                K::law_mul_comm(a[k][t].spec_mul(y[t]), b[i][k]);
                K::law_mul_assoc(b[i][k], a[k][t], y[t]);
            }
            assert(spec_vec_scl(qk, b[i][k]) =~= g[k]);
            assert(mv[k] == spec_dot(a[k], y));
        }
        assert(spec_vec_mul(b[i], mv) =~= Seq::new(n2, |k: int| sum_seq(g[k])));
        lemma_sum_exchange::<K>(g, c2);
    }
    assert(spec_matvec(spec_matmul(b, a, c2), y) =~= spec_matvec(b, spec_matvec(a, y)));
}

/// Applying a matrix to a zero vector gives zero entries.
pub proof fn lemma_matvec_zeros<K: Field>(b: Seq<Seq<K>>, y: Seq<K>)
    requires
        forall|i: int| 0 <= i < b.len() ==> (#[trigger] b[i]).len() == y.len(),
        forall|t: int| 0 <= t < y.len() ==> y[t] == K::spec_zero(),
    ensures
        forall|i: int| 0 <= i < b.len() ==> #[trigger] spec_matvec(b, y)[i] == K::spec_zero(),
{
    assert forall|i: int| 0 <= i < b.len() implies #[trigger] spec_matvec(b, y)[i]
        == K::spec_zero() by {
        lemma_dot_zeros::<K>(b[i], y);
    }
}

/// Applying the identity to a vector gives it back.
pub proof fn lemma_matvec_identity<K: Field>(y: Seq<K>)
    requires
        wf_seq(y),
    ensures
        spec_matvec(spec_identity::<K>(y.len()), y) == y,
{
    let n = y.len();
    let idm = spec_identity::<K>(n);
    assert forall|i: int| 0 <= i < n implies #[trigger] spec_matvec(idm, y)[i] == y[i] by {
        crate::vector::lemma_dot_comm::<K>(idm[i], y);
        assert forall|t: int| 0 <= t < n implies idm[i][t] == (if t == i {
            K::spec_one()
        } else {
            K::spec_zero()
        }) by {}
        lemma_dot_unit::<K>(y, idm[i], i);
    }
    assert(spec_matvec(idm, y) =~= y);
}

/// Multiplying by the identity on the right changes nothing.
pub proof fn lemma_matmul_identity_right<K: Field>(r: Seq<Seq<K>>, n: nat)
    requires
        forall|i: int| 0 <= i < r.len() ==> (#[trigger] r[i]).len() == n,
        forall|i: int| 0 <= i < r.len() ==> wf_seq(#[trigger] r[i]),
    ensures
        spec_matmul(r, spec_identity::<K>(n), n) == r,
{
    let idm = spec_identity::<K>(n);
    assert forall|i: int| 0 <= i < r.len() implies spec_matmul(r, idm, n)[i] == r[i] by {
        assert forall|j: int| 0 <= j < n implies spec_dot(r[i], spec_col(idm, j)) == r[i][j] by {
            let e = spec_col(idm, j);
            assert forall|t: int| 0 <= t < n implies e[t] == (if t == j {
                K::spec_one()
            } else {
                K::spec_zero()
            }) by {
                assert(idm[t][j] == (if t == j {
                    K::spec_one()
                } else {
                    K::spec_zero()
                }));
            }
            lemma_dot_unit::<K>(r[i], e, j);
        }
        assert(spec_matmul(r, idm, n)[i] =~= r[i]);
    }
    assert(spec_matmul(r, idm, n) =~= r);
}

/// Multiplying by the identity on the left changes nothing.
pub proof fn lemma_matmul_identity_left<K: Field>(a: Seq<Seq<K>>, p: nat)
    requires
        forall|i: int| 0 <= i < a.len() ==> (#[trigger] a[i]).len() == p,
        forall|i: int| 0 <= i < a.len() ==> wf_seq(#[trigger] a[i]),
    ensures
        spec_matmul(spec_identity::<K>(a.len()), a, p) == a,
{
    let n = a.len();
    let idm = spec_identity::<K>(n);
    assert forall|i: int| 0 <= i < n implies spec_matmul(idm, a, p)[i] == a[i] by {
        assert forall|j: int| 0 <= j < p implies spec_dot(idm[i], spec_col(a, j)) == a[i][j] by {
            let c = spec_col(a, j);
            assert forall|t: int| 0 <= t < n implies idm[i][t] == (if t == i {
                K::spec_one()
            } else {
                K::spec_zero()
            }) by {}
            // dot(e_i, c) == dot(c, e_i) == c[i]
            crate::vector::lemma_dot_comm::<K>(idm[i], c);
            assert forall|t: int| 0 <= t < c.len() implies (#[trigger] c[t]).wf() by {
                assert(c[t] == a[t][j]);
            }
            lemma_dot_unit::<K>(c, idm[i], i);
            assert(c[i] == a[i][j]);
        }
        assert(spec_matmul(idm, a, p)[i] =~= a[i]);
    }
    assert(spec_matmul(idm, a, p) =~= a);
}

/// Changing one row of the left factor changes one row of the product.
pub proof fn lemma_matmul_update_row<K: Field>(
    rr: Seq<Seq<K>>,
    a: Seq<Seq<K>>,
    p: nat,
    i: int,
    nr: Seq<K>,
)
    requires
        0 <= i < rr.len(),
    ensures
        spec_matmul(rr.update(i, nr), a, p) == spec_matmul(rr, a, p).update(
            i,
            Seq::new(p, |j: int| spec_dot(nr, spec_col(a, j))),
        ),
{
    let lhs = spec_matmul(rr.update(i, nr), a, p);
    let rhs = spec_matmul(rr, a, p).update(i, Seq::new(p, |j: int| spec_dot(nr, spec_col(a, j))));
    assert forall|t: int| 0 <= t < rr.len() implies lhs[t] == rhs[t] by {
        if t == i {
            assert(lhs[t] =~= rhs[t]);
        } else {
            assert(lhs[t] =~= rhs[t]);
        }
    }
    assert(lhs =~= rhs);
}

} // verus!
