//! Vectors over a [`Field`]: a dimension fixed at construction, element-wise
//! arithmetic, the dot product, linear combinations, interpolation and the
//! three-dimensional cross product.
//!
//! Operands of different dimensions are rejected with
//! [`LinalgError::SizeMismatch`]; division by the additive identity with
//! [`LinalgError::DivisionByZero`]. No operation panics.

use vstd::prelude::*;
use crate::field::{lemma_add_shuffle, lemma_add_mul, lemma_sub_mul, wf_seq, Field};
use crate::LinalgError;

verus! {

/// Element-wise sum of two sequences of equal length.
pub open spec fn spec_vec_add<K: Field>(u: Seq<K>, v: Seq<K>) -> Seq<K> {
    Seq::new(u.len(), |i: int| u[i].spec_add(v[i]))
}

/// Element-wise difference of two sequences of equal length.
pub open spec fn spec_vec_sub<K: Field>(u: Seq<K>, v: Seq<K>) -> Seq<K> {
    Seq::new(u.len(), |i: int| u[i].spec_sub(v[i]))
}

/// Every element multiplied by the scalar `a`.
pub open spec fn spec_vec_scl<K: Field>(u: Seq<K>, a: K) -> Seq<K> {
    Seq::new(u.len(), |i: int| u[i].spec_mul(a))
}

/// Every element divided by the scalar `a`.
pub open spec fn spec_vec_div<K: Field>(u: Seq<K>, a: K) -> Seq<K> {
    Seq::new(u.len(), |i: int| u[i].spec_div(a))
}

/// Every element negated.
pub open spec fn spec_vec_neg<K: Field>(u: Seq<K>) -> Seq<K> {
    Seq::new(u.len(), |i: int| u[i].spec_neg())
}

/// Element-wise product of two sequences of equal length.
pub open spec fn spec_vec_mul<K: Field>(u: Seq<K>, v: Seq<K>) -> Seq<K> {
    Seq::new(u.len(), |i: int| u[i].spec_mul(v[i]))
}

/// The sum of a sequence of scalars, folded from the left starting at the
/// additive identity.
pub open spec fn sum_seq<K: Field>(s: Seq<K>) -> K
    decreases s.len(),
{
    if s.len() == 0 {
        K::spec_zero()
    } else {
        sum_seq(s.drop_last()).spec_add(s.last())
    }
}

/// The dot product: the sum of the element-wise products.
pub open spec fn spec_dot<K: Field>(u: Seq<K>, v: Seq<K>) -> K {
    sum_seq(spec_vec_mul(u, v))
}

/// Linear interpolation between `u` and `v` at parameter `t`:
/// `u + (v - u) * t`, element-wise.
pub open spec fn spec_lerp<K: Field>(u: Seq<K>, v: Seq<K>, t: K) -> Seq<K> {
    Seq::new(u.len(), |i: int| u[i].spec_add(v[i].spec_sub(u[i]).spec_mul(t)))
}

/// The three-dimensional cross product by determinant expansion.
pub open spec fn spec_cross<K: Field>(u: Seq<K>, v: Seq<K>) -> Seq<K> {
    seq![
        u[1].spec_mul(v[2]).spec_sub(u[2].spec_mul(v[1])),
        u[2].spec_mul(v[0]).spec_sub(u[0].spec_mul(v[2])),
        u[0].spec_mul(v[1]).spec_sub(u[1].spec_mul(v[0])),
    ]
}

/// The views of a sequence of vectors.
pub open spec fn vec_views<K: Field>(s: Seq<Vector<K>>) -> Seq<Seq<K>> {
    Seq::new(s.len(), |i: int| s[i]@)
}

/// Every vector in the sequence has well-formed elements.
pub open spec fn wf_vecs<K: Field>(s: Seq<Vector<K>>) -> bool {
    forall|i: int| 0 <= i < s.len() ==> (#[trigger] s[i]).wf()
}

/// The `k`-th summand contributed to element `i` of a linear combination.
pub open spec fn lincomb_terms<K: Field>(vs: Seq<Seq<K>>, cs: Seq<K>, i: int) -> Seq<K> {
    Seq::new(vs.len(), |k: int| cs[k].spec_mul(vs[k][i]))
}

/// The linear combination of the vectors `vs` with coefficients `cs`:
/// element `i` is the sum over `k` of `cs[k] * vs[k][i]`.
pub open spec fn spec_lincomb<K: Field>(vs: Seq<Seq<K>>, cs: Seq<K>, dim: nat) -> Seq<K> {
    Seq::new(dim, |i: int| sum_seq(lincomb_terms(vs, cs, i)))
}

/// The dimension shared by the vectors of a linear combination.
pub open spec fn lincomb_dim<K: Field>(vs: Seq<Seq<K>>) -> nat {
    if vs.len() == 0 {
        0
    } else {
        vs[0].len()
    }
}

/// The inputs on which a linear combination is defined: as many
/// coefficients as vectors, and all vectors of one dimension.
pub open spec fn lincomb_ok<K: Field>(vs: Seq<Seq<K>>, cs: Seq<K>) -> bool {
    vs.len() == cs.len() && (forall|k: int|
        0 <= k < vs.len() ==> (#[trigger] vs[k]).len() == lincomb_dim::<K>(vs))
}

/// The element-wise operations always yield well-formed elements.
pub proof fn lemma_wf_vec_ops<K: Field>(u: Seq<K>, v: Seq<K>, a: K)
    ensures
        wf_seq(spec_vec_add(u, v)),
        wf_seq(spec_vec_sub(u, v)),
        wf_seq(spec_vec_mul(u, v)),
        wf_seq(spec_vec_scl(u, a)),
        wf_seq(spec_vec_div(u, a)),
        wf_seq(spec_vec_neg(u)),
{
    assert forall|i: int| 0 <= i < u.len() implies (#[trigger] spec_vec_add(u, v)[i]).wf()
        && spec_vec_sub(u, v)[i].wf() && spec_vec_mul(u, v)[i].wf() && spec_vec_scl(u, a)[i].wf()
        && spec_vec_div(u, a)[i].wf() && spec_vec_neg(u)[i].wf() by {
        K::law_wf(u[i], v[i]);
        K::law_wf(u[i], a);
    }
    assert forall|i: int| 0 <= i < u.len() implies (#[trigger] spec_vec_sub(u, v)[i]).wf() by {
        K::law_wf(u[i], v[i]);
    }
    assert forall|i: int| 0 <= i < u.len() implies (#[trigger] spec_vec_mul(u, v)[i]).wf() by {
        K::law_wf(u[i], v[i]);
    }
    assert forall|i: int| 0 <= i < u.len() implies (#[trigger] spec_vec_scl(u, a)[i]).wf() by {
        K::law_wf(u[i], a);
    }
    assert forall|i: int| 0 <= i < u.len() implies (#[trigger] spec_vec_div(u, a)[i]).wf() by {
        K::law_wf(u[i], a);
    }
    assert forall|i: int| 0 <= i < u.len() implies (#[trigger] spec_vec_neg(u)[i]).wf() by {
        K::law_wf(u[i], a);
    }
}

/// Dividing a row by `a` is scaling it by the reciprocal of `a`.
pub proof fn lemma_vec_div_as_scl<K: Field>(u: Seq<K>, a: K)
    requires
        wf_seq(u),
        a.wf(),
        a != K::spec_zero(),
    ensures
        spec_vec_div(u, a) == spec_vec_scl(u, K::spec_one().spec_div(a)),
{
    assert forall|i: int| 0 <= i < u.len() implies spec_vec_div(u, a)[i] == spec_vec_scl(
        u,
        K::spec_one().spec_div(a),
    )[i] by {
        crate::field::lemma_div_as_mul::<K>(u[i], a);
    }
    assert(spec_vec_div(u, a) =~= spec_vec_scl(u, K::spec_one().spec_div(a)));
}

/// The sum of a sequence of scalars is well-formed.
pub proof fn lemma_sum_wf<K: Field>(s: Seq<K>)
    ensures
        sum_seq(s).wf(),
    decreases s.len(),
{
    if s.len() == 0 {
        K::law_consts();
    } else {
        lemma_sum_wf(s.drop_last());
        K::law_wf(sum_seq(s.drop_last()), s.last());
    }
}

/// Extending a prefix sum by one element adds that element.
pub proof fn lemma_sum_take_step<K: Field>(s: Seq<K>, i: int)
    requires
        0 <= i < s.len(),
    ensures
        sum_seq(s.take(i + 1)) == sum_seq(s.take(i)).spec_add(s[i]),
{
    assert(s.take(i + 1).drop_last() =~= s.take(i));
    assert(s.take(i + 1).last() == s[i]);
}

/// A vector of scalars whose dimension is fixed at construction.
pub struct Vector<K: Field> {
    data: Vec<K>,
}

impl<K: Field> View for Vector<K> {
    type V = Seq<K>;

    closed spec fn view(&self) -> Seq<K> {
        self.data@
    }
}

impl<K: Field> Vector<K> {
    /// All elements are well-formed scalars.
    pub open spec fn wf(self) -> bool {
        wf_seq(self@)
    }

    /// A vector owning the given elements; its dimension is their count.
    pub fn new(data: Vec<K>) -> (r: Self)
        requires
            wf_seq(data@),
        ensures
            r@ == data@,
            r.wf(),
    {
        Vector { data }
    }

    /// The elements, in order.
    pub fn data(&self) -> (r: &Vec<K>)
        ensures
            r@ == self@,
    {
        &self.data
    }

    /// The elements, in order.
    pub fn get_data(&self) -> (r: &Vec<K>)
        ensures
            r@ == self@,
    {
        &self.data
    }

    /// Mutable access to the elements; the caller must keep them
    /// well-formed for further operations to apply.
    pub fn data_mut(&mut self) -> (r: &mut Vec<K>)
        ensures
            r@ == old(self)@,
            final(self)@ == final(r)@,
    {
        &mut self.data
    }

    /// The dimension.
    pub fn size(&self) -> (r: usize)
        ensures
            r == self@.len(),
    {
        self.data.len()
    }

    /// The dimension.
    pub fn get_size(&self) -> (r: usize)
        ensures
            r == self@.len(),
    {
        self.data.len()
    }

    /// Element-wise sum, in place. Fails, leaving the vector unchanged,
    /// exactly when the dimensions differ.
    pub fn add(&mut self, v: &Vector<K>) -> (r: Result<(), LinalgError>)
        requires
            old(self).wf(),
            v.wf(),
        ensures
            final(self).wf(),
            r is Ok <==> old(self)@.len() == v@.len(),
            r is Ok ==> final(self)@ == spec_vec_add(old(self)@, v@),
            r is Err ==> final(self)@ == old(self)@ && r->Err_0 == LinalgError::SizeMismatch,
    {
        if self.data.len() != v.data.len() {
            return Err(LinalgError::SizeMismatch);
        }
        let n = self.data.len();
        let mut i: usize = 0;
        while i < n
            invariant
                old(self).wf(),
                v.wf(),
                n == old(self)@.len() == v@.len(),
                i <= n,
                self@.len() == n,
                forall|j: int| 0 <= j < i ==> self@[j] == spec_vec_add(old(self)@, v@)[j],
                forall|j: int| i <= j < n ==> self@[j] == old(self)@[j],
                wf_seq(self@),
            decreases n - i,
        {
            let x = self.data[i].add(v.data[i]);
            proof {
                K::law_wf(self@[i as int], v@[i as int]);
            }
            self.data[i] = x;
            i = i + 1;
        }
        proof {
            assert(self@ =~= spec_vec_add(old(self)@, v@));
        }
        Ok(())
    }

    /// Element-wise difference, in place. Fails, leaving the vector
    /// unchanged, exactly when the dimensions differ.
    pub fn sub(&mut self, v: &Vector<K>) -> (r: Result<(), LinalgError>)
        requires
            old(self).wf(),
            v.wf(),
        ensures
            final(self).wf(),
            r is Ok <==> old(self)@.len() == v@.len(),
            r is Ok ==> final(self)@ == spec_vec_sub(old(self)@, v@),
            r is Err ==> final(self)@ == old(self)@ && r->Err_0 == LinalgError::SizeMismatch,
    {
        if self.data.len() != v.data.len() {
            return Err(LinalgError::SizeMismatch);
        }
        let n = self.data.len();
        let mut i: usize = 0;
        while i < n
            invariant
                old(self).wf(),
                v.wf(),
                n == old(self)@.len() == v@.len(),
                i <= n,
                self@.len() == n,
                forall|j: int| 0 <= j < i ==> self@[j] == spec_vec_sub(old(self)@, v@)[j],
                forall|j: int| i <= j < n ==> self@[j] == old(self)@[j],
                wf_seq(self@),
            decreases n - i,
        {
            let x = self.data[i].sub(v.data[i]);
            proof {
                K::law_wf(self@[i as int], v@[i as int]);
            }
            self.data[i] = x;
            i = i + 1;
        }
        proof {
            assert(self@ =~= spec_vec_sub(old(self)@, v@));
        }
        Ok(())
    }

    /// Multiply every element by the scalar `a`, in place.
    pub fn scl(&mut self, a: K)
        requires
            old(self).wf(),
            a.wf(),
        ensures
            final(self).wf(),
            final(self)@ == spec_vec_scl(old(self)@, a),
    {
        let n = self.data.len();
        let mut i: usize = 0;
        while i < n
            invariant
                old(self).wf(),
                a.wf(),
                n == old(self)@.len(),
                i <= n,
                self@.len() == n,
                forall|j: int| 0 <= j < i ==> self@[j] == spec_vec_scl(old(self)@, a)[j],
                forall|j: int| i <= j < n ==> self@[j] == old(self)@[j],
                wf_seq(self@),
            decreases n - i,
        {
            let x = self.data[i].mul(a);
            proof {
                K::law_wf(self@[i as int], a);
            }
            self.data[i] = x;
            i = i + 1;
        }
        proof {
            assert(self@ =~= spec_vec_scl(old(self)@, a));
        }
    }

    /// Divide every element by the scalar `a`, in place. Fails, leaving
    /// the vector unchanged, exactly when `a` is the additive identity.
    pub fn inv_scl(&mut self, a: K) -> (r: Result<(), LinalgError>)
        requires
            old(self).wf(),
            a.wf(),
        ensures
            final(self).wf(),
            r is Ok <==> a != K::spec_zero(),
            r is Ok ==> final(self)@ == spec_vec_div(old(self)@, a),
            r is Err ==> final(self)@ == old(self)@ && r->Err_0 == LinalgError::DivisionByZero,
    {
        proof {
            K::law_consts();
        }
        if a.eq_val(K::zero()) {
            return Err(LinalgError::DivisionByZero);
        }
        let n = self.data.len();
        let mut i: usize = 0;
        while i < n
            invariant
                old(self).wf(),
                a.wf(),
                a != K::spec_zero(),
                n == old(self)@.len(),
                i <= n,
                self@.len() == n,
                forall|j: int| 0 <= j < i ==> self@[j] == spec_vec_div(old(self)@, a)[j],
                forall|j: int| i <= j < n ==> self@[j] == old(self)@[j],
                wf_seq(self@),
            decreases n - i,
        {
            let x = self.data[i].div(a);
            proof {
                K::law_wf(self@[i as int], a);
            }
            self.data[i] = x;
            i = i + 1;
        }
        proof {
            assert(self@ =~= spec_vec_div(old(self)@, a));
        }
        Ok(())
    }

    /// Negate every element, in place.
    pub fn neg(&mut self)
        requires
            old(self).wf(),
        ensures
            final(self).wf(),
            final(self)@ == spec_vec_neg(old(self)@),
    {
        let n = self.data.len();
        let mut i: usize = 0;
        while i < n
            invariant
                old(self).wf(),
                n == old(self)@.len(),
                i <= n,
                self@.len() == n,
                forall|j: int| 0 <= j < i ==> self@[j] == spec_vec_neg(old(self)@)[j],
                forall|j: int| i <= j < n ==> self@[j] == old(self)@[j],
                wf_seq(self@),
            decreases n - i,
        {
            let x = self.data[i].neg();
            proof {
                K::law_wf(self@[i as int], self@[i as int]);
            }
            self.data[i] = x;
            i = i + 1;
        }
        proof {
            assert(self@ =~= spec_vec_neg(old(self)@));
        }
    }

    /// The dot product: the sum of the element-wise products, folded from
    /// the additive identity. Fails exactly when the dimensions differ.
    pub fn dot(&self, v: &Vector<K>) -> (r: Result<K, LinalgError>)
        requires
            self.wf(),
            v.wf(),
        ensures
            r is Ok <==> self@.len() == v@.len(),
            r is Ok ==> r->Ok_0 == spec_dot(self@, v@) && r->Ok_0.wf(),
            r is Err ==> r->Err_0 == LinalgError::SizeMismatch,
    {
        if self.data.len() != v.data.len() {
            return Err(LinalgError::SizeMismatch);
        }
        let n = self.data.len();
        let ghost prods = spec_vec_mul(self@, v@);
        let mut acc = K::zero();
        proof {
            K::law_consts();
            assert(prods.take(0) =~= Seq::<K>::empty());
        }
        let mut i: usize = 0;
        while i < n
            invariant
                self.wf(),
                v.wf(),
                n == self@.len() == v@.len(),
                prods == spec_vec_mul(self@, v@),
                i <= n,
                acc == sum_seq(prods.take(i as int)),
                acc.wf(),
            decreases n - i,
        {
            let x = self.data[i].mul(v.data[i]);
            proof {
                K::law_wf(self@[i as int], v@[i as int]);
            }
            acc = acc.add(x);
            proof {
                K::law_wf(sum_seq(prods.take(i as int)), x);
                lemma_sum_take_step(prods, i as int);
            }
            i = i + 1;
        }
        proof {
            assert(prods.take(n as int) =~= prods);
        }
        Ok(acc)
    }

    /// The weighted sum of `u` with the coefficients `coefs`: element `i`
    /// of the result is `Σ coefs[k] * u[k][i]`. Fails exactly when the
    /// vector and coefficient counts differ or the vectors do not all
    /// share one dimension.
    pub fn linear_combination(u: &Vec<Vector<K>>, coefs: &Vec<K>) -> (r: Result<
        Vector<K>,
        LinalgError,
    >)
        requires
            wf_vecs(u@),
            wf_seq(coefs@),
        ensures
            r is Ok <==> lincomb_ok::<K>(vec_views(u@), coefs@),
            r is Ok ==> r->Ok_0@ == spec_lincomb(
                vec_views(u@),
                coefs@,
                lincomb_dim::<K>(vec_views(u@)),
            ) && r->Ok_0.wf(),
            r is Err ==> r->Err_0 == LinalgError::SizeMismatch,
    {
        let ghost vs = vec_views(u@);
        let ghost cs = coefs@;
        if u.len() != coefs.len() {
            return Err(LinalgError::SizeMismatch);
        }
        let dim: usize = if u.len() == 0 {
            0
        } else {
            u[0].data.len()
        };
        let mut k: usize = 0;
        while k < u.len()
            invariant
                k <= u@.len(),
                vs == vec_views(u@),
                dim == lincomb_dim::<K>(vs),
                forall|j: int| 0 <= j < k ==> (#[trigger] vs[j]).len() == dim,
            decreases u@.len() - k,
        {
            proof {
                assert(vs[k as int] == u@[k as int]@);
            }
            if u[k].data.len() != dim {
                return Err(LinalgError::SizeMismatch);
            }
            k = k + 1;
        }
        let mut out: Vec<K> = Vec::new();
        let mut i: usize = 0;
        while i < dim
            invariant
                i <= dim,
                out@.len() == i,
                forall|j: int| 0 <= j < i ==> out@[j] == K::spec_zero(),
            decreases dim - i,
        {
            out.push(K::zero());
            i = i + 1;
        }
        proof {
            K::law_consts();
            assert forall|j: int| 0 <= j < dim implies out@[j] == sum_seq(
                lincomb_terms(vs, cs, j).take(0),
            ) by {
                assert(lincomb_terms(vs, cs, j).take(0) =~= Seq::<K>::empty());
            }
        }
        let mut k: usize = 0;
        while k < u.len()
            invariant
                wf_vecs(u@),
                wf_seq(coefs@),
                vs == vec_views(u@),
                cs == coefs@,
                u@.len() == cs.len(),
                k <= u@.len(),
                dim == lincomb_dim::<K>(vs),
                forall|j: int| 0 <= j < u@.len() ==> (#[trigger] vs[j]).len() == dim,
                out@.len() == dim,
                wf_seq(out@),
                forall|j: int|
                    0 <= j < dim ==> out@[j] == sum_seq(
                        #[trigger] lincomb_terms(vs, cs, j).take(k as int),
                    ),
            decreases u@.len() - k,
        {
            let c = coefs[k];
            let mut i: usize = 0;
            while i < dim
                invariant
                    wf_vecs(u@),
                    wf_seq(coefs@),
                    vs == vec_views(u@),
                    cs == coefs@,
                    u@.len() == cs.len(),
                    k < u@.len(),
                    c == cs[k as int],
                    i <= dim,
                    dim == lincomb_dim::<K>(vs),
                    forall|j: int| 0 <= j < u@.len() ==> (#[trigger] vs[j]).len() == dim,
                    out@.len() == dim,
                    wf_seq(out@),
                    forall|j: int|
                        0 <= j < i ==> out@[j] == sum_seq(
                            #[trigger] lincomb_terms(vs, cs, j).take(k + 1),
                        ),
                    forall|j: int|
                        i <= j < dim ==> out@[j] == sum_seq(
                            #[trigger] lincomb_terms(vs, cs, j).take(k as int),
                        ),
                decreases dim - i,
            {
                proof {
                    assert(vs[k as int] == u@[k as int]@);
                    assert(u@[k as int].wf());
                }
                let term = c.mul(u[k].data[i]);
                proof {
                    K::law_wf(c, vs[k as int][i as int]);
                }
                let x = out[i].add(term);
                proof {
                    K::law_wf(out@[i as int], term);
                    lemma_sum_take_step(lincomb_terms(vs, cs, i as int), k as int);
                    assert(lincomb_terms(vs, cs, i as int)[k as int] == cs[k as int].spec_mul(
                        vs[k as int][i as int],
                    ));
                }
                out[i] = x;
                i = i + 1;
            }
            k = k + 1;
        }
        proof {
            assert forall|j: int| 0 <= j < dim implies out@[j] == sum_seq(
                lincomb_terms(vs, cs, j),
            ) by {
                assert(lincomb_terms(vs, cs, j).take(u@.len() as int) =~= lincomb_terms(
                    vs,
                    cs,
                    j,
                ));
            }
            assert(out@ =~= spec_lincomb(vs, cs, dim as nat));
        }
        Ok(Vector { data: out })
    }
}

/// Linear interpolation `u + (v - u) * t`, element-wise; `t` outside the
/// unit interval extrapolates. Fails exactly when the dimensions differ.
pub fn lerp<K: Field>(u: &Vector<K>, v: &Vector<K>, t: K) -> (r: Result<Vector<K>, LinalgError>)
    requires
        u.wf(),
        v.wf(),
        t.wf(),
    ensures
        r is Ok <==> u@.len() == v@.len(),
        r is Ok ==> r->Ok_0@ == spec_lerp(u@, v@, t) && r->Ok_0.wf(),
        r is Err ==> r->Err_0 == LinalgError::SizeMismatch,
{
    if u.data.len() != v.data.len() {
        return Err(LinalgError::SizeMismatch);
    }
    let n = u.data.len();
    let mut out: Vec<K> = Vec::new();
    let mut i: usize = 0;
    while i < n
        invariant
            u.wf(),
            v.wf(),
            t.wf(),
            n == u@.len() == v@.len(),
            i <= n,
            out@.len() == i,
            forall|j: int| 0 <= j < i ==> out@[j] == spec_lerp(u@, v@, t)[j],
            wf_seq(out@),
        decreases n - i,
    {
        proof {
            K::law_wf(v@[i as int], u@[i as int]);
            K::law_wf(v@[i as int].spec_sub(u@[i as int]), t);
            K::law_wf(u@[i as int], v@[i as int].spec_sub(u@[i as int]).spec_mul(t));
        }
        let x = u.data[i].add(v.data[i].sub(u.data[i]).mul(t));
        out.push(x);
        i = i + 1;
    }
    proof {
        assert(out@ =~= spec_lerp(u@, v@, t));
    }
    Ok(Vector { data: out })
}

/// Linear interpolation between two scalars: `u + (v - u) * t`.
pub fn lerp_scalar<K: Field>(u: K, v: K, t: K) -> (r: K)
    requires
        u.wf(),
        v.wf(),
        t.wf(),
    ensures
        r == u.spec_add(v.spec_sub(u).spec_mul(t)),
        r.wf(),
{
    proof {
        K::law_wf(v, u);
        K::law_wf(v.spec_sub(u), t);
        K::law_wf(u, v.spec_sub(u).spec_mul(t));
    }
    u.add(v.sub(u).mul(t))
}

/// The cross product of two three-dimensional vectors, by determinant
/// expansion. Fails exactly when either operand's dimension is not 3.
pub fn cross_product<K: Field>(u: &Vector<K>, v: &Vector<K>) -> (r: Result<
    Vector<K>,
    LinalgError,
>)
    requires
        u.wf(),
        v.wf(),
    ensures
        r is Ok <==> u@.len() == 3 && v@.len() == 3,
        r is Ok ==> r->Ok_0@ == spec_cross(u@, v@) && r->Ok_0.wf(),
        r is Err ==> r->Err_0 == LinalgError::SizeMismatch,
{
    if u.data.len() != 3 || v.data.len() != 3 {
        return Err(LinalgError::SizeMismatch);
    }
    proof {
        K::law_wf(u@[1], v@[2]);
        K::law_wf(u@[2], v@[1]);
        K::law_wf(u@[2], v@[0]);
        K::law_wf(u@[0], v@[2]);
        K::law_wf(u@[0], v@[1]);
        K::law_wf(u@[1], v@[0]);
    }
    let c0 = u.data[1].mul(v.data[2]).sub(u.data[2].mul(v.data[1]));
    let c1 = u.data[2].mul(v.data[0]).sub(u.data[0].mul(v.data[2]));
    let c2 = u.data[0].mul(v.data[1]).sub(u.data[1].mul(v.data[0]));
    proof {
        K::law_wf(u@[1].spec_mul(v@[2]), u@[2].spec_mul(v@[1]));
        K::law_wf(u@[2].spec_mul(v@[0]), u@[0].spec_mul(v@[2]));
        K::law_wf(u@[0].spec_mul(v@[1]), u@[1].spec_mul(v@[0]));
    }
    let mut out: Vec<K> = Vec::new();
    out.push(c0);
    out.push(c1);
    out.push(c2);
    proof {
        assert(out@ =~= spec_cross(u@, v@));
    }
    Ok(Vector { data: out })
}

/// The sum of a three-element sequence, written out.
proof fn lemma_sum3<K: Field>(s: Seq<K>)
    requires
        s.len() == 3,
    ensures
        sum_seq(s) == K::spec_zero().spec_add(s[0]).spec_add(s[1]).spec_add(s[2]),
{
    let s2 = s.drop_last();
    let s1 = s2.drop_last();
    let s0 = s1.drop_last();
    assert(s0.len() == 0);
    assert(sum_seq(s0) == K::spec_zero());
    assert(s1.last() == s[0] && s2.last() == s[1] && s.last() == s[2]);
    assert(sum_seq(s1) == sum_seq(s0).spec_add(s1.last()));
    assert(sum_seq(s2) == sum_seq(s1).spec_add(s2.last()));
    assert(sum_seq(s) == sum_seq(s2).spec_add(s.last()));
}

/// Vector addition is associative.
pub proof fn lemma_vec_add_assoc<K: Field>(u: Seq<K>, v: Seq<K>, w: Seq<K>)
    requires
        u.len() == v.len(),
        v.len() == w.len(),
    ensures
        spec_vec_add(spec_vec_add(u, v), w) == spec_vec_add(u, spec_vec_add(v, w)),
{
    assert forall|i: int| 0 <= i < u.len() implies spec_vec_add(spec_vec_add(u, v), w)[i]
        == spec_vec_add(u, spec_vec_add(v, w))[i] by {
        K::law_add_assoc(u[i], v[i], w[i]);
    }
    assert(spec_vec_add(spec_vec_add(u, v), w) =~= spec_vec_add(u, spec_vec_add(v, w)));
}

/// Vector addition is commutative.
pub proof fn lemma_vec_add_comm<K: Field>(u: Seq<K>, v: Seq<K>)
    requires
        u.len() == v.len(),
    ensures
        spec_vec_add(u, v) == spec_vec_add(v, u),
{
    assert forall|i: int| 0 <= i < u.len() implies spec_vec_add(u, v)[i] == spec_vec_add(v, u)[i]
        by {
        K::law_add_comm(u[i], v[i]);
    }
    assert(spec_vec_add(u, v) =~= spec_vec_add(v, u));
}

/// Scaling by `a` and then by `b` is scaling by `a * b`.
pub proof fn lemma_scl_compose<K: Field>(u: Seq<K>, a: K, b: K)
    ensures
        spec_vec_scl(spec_vec_scl(u, a), b) == spec_vec_scl(u, a.spec_mul(b)),
{
    assert forall|i: int| 0 <= i < u.len() implies spec_vec_scl(spec_vec_scl(u, a), b)[i]
        == spec_vec_scl(u, a.spec_mul(b))[i] by {
        K::law_mul_assoc(u[i], a, b);
    }
    assert(spec_vec_scl(spec_vec_scl(u, a), b) =~= spec_vec_scl(u, a.spec_mul(b)));
}

/// The dot product is commutative.
pub proof fn lemma_dot_comm<K: Field>(u: Seq<K>, v: Seq<K>)
    requires
        u.len() == v.len(),
    ensures
        spec_dot(u, v) == spec_dot(v, u),
{
    assert forall|i: int| 0 <= i < u.len() implies spec_vec_mul(u, v)[i] == spec_vec_mul(v, u)[i]
        by {
        K::law_mul_comm(u[i], v[i]);
    }
    assert(spec_vec_mul(u, v) =~= spec_vec_mul(v, u));
}

/// The cross product is orthogonal to both of its operands: its dot
/// product with either one is the additive identity, exactly.
pub proof fn lemma_cross_orthogonal<K: Field>(u: Seq<K>, v: Seq<K>)
    requires
        u.len() == 3,
        v.len() == 3,
        wf_seq(u),
        wf_seq(v),
    ensures
        spec_dot(spec_cross(u, v), u) == K::spec_zero(),
        spec_dot(spec_cross(u, v), v) == K::spec_zero(),
{
    lemma_cross_dot_side::<K>(u, v, u);
    lemma_cross_dot_side::<K>(u, v, v);
}

/// Three canonically ordered products of three scalars.
spec fn prod3<K: Field>(x: K, y: K, z: K) -> K {
    x.spec_mul(y.spec_mul(z))
}

/// The dot product of `cross(u, v)` with either `u` or `v` vanishes: its
/// three summands cancel pairwise.
proof fn lemma_cross_dot_side<K: Field>(u: Seq<K>, v: Seq<K>, w: Seq<K>)
    requires
        u.len() == 3,
        v.len() == 3,
        wf_seq(u),
        wf_seq(v),
        w == u || w == v,
    ensures
        spec_dot(spec_cross(u, v), w) == K::spec_zero(),
{
    let z = K::spec_zero();
    let c = spec_cross(u, v);
    let s = spec_vec_mul(c, w);
    assert(s.len() == 3);
    lemma_sum3::<K>(s);
    proof_wf3::<K>(u, v);
    // The three summands, with every product rewritten into the canonical
    // order x * (y * z).
    let p0 = prod3(w[0], u[1], v[2]).spec_sub(prod3(w[0], u[2], v[1]));
    let p1 = prod3(w[1], u[2], v[0]).spec_sub(prod3(w[1], u[0], v[2]));
    let p2 = prod3(w[2], u[0], v[1]).spec_sub(prod3(w[2], u[1], v[0]));
    assert(s[0] == p0 && s[1] == p1 && s[2] == p2) by {
        K::law_wf(u[1], v[2]);
        K::law_wf(u[2], v[1]);
        K::law_wf(u[2], v[0]);
        K::law_wf(u[0], v[2]);
        K::law_wf(u[0], v[1]);
        K::law_wf(u[1], v[0]);
        lemma_sub_mul::<K>(u[1].spec_mul(v[2]), u[2].spec_mul(v[1]), w[0]);
        lemma_sub_mul::<K>(u[2].spec_mul(v[0]), u[0].spec_mul(v[2]), w[1]);
        lemma_sub_mul::<K>(u[0].spec_mul(v[1]), u[1].spec_mul(v[0]), w[2]);
        lemma_rot3::<K>(u[1], v[2], w[0]);
        lemma_rot3::<K>(u[2], v[1], w[0]);
        lemma_rot3::<K>(u[2], v[0], w[1]);
        lemma_rot3::<K>(u[0], v[2], w[1]);
        lemma_rot3::<K>(u[0], v[1], w[2]);
        lemma_rot3::<K>(u[1], v[0], w[2]);
    }
    // With w on either side, the six products form three equal pairs of
    // opposite sign.
    let x0 = prod3(w[0], u[1], v[2]);
    let x1 = prod3(w[0], u[2], v[1]);
    let x2 = prod3(w[1], u[2], v[0]);
    let x3 = prod3(w[1], u[0], v[2]);
    let x4 = prod3(w[2], u[0], v[1]);
    let x5 = prod3(w[2], u[1], v[0]);
    if w == u {
        lemma_swap_outer::<K>(u[0], u[1], v[2]);
        lemma_swap_outer::<K>(u[0], u[2], v[1]);
        lemma_swap_outer::<K>(u[1], u[2], v[0]);
        assert(x3 == x0 && x4 == x1 && x5 == x2);
    } else {
        // x2 = (v1, u2, v0) -> (v1, v0, u2) -> (v0, v1, u2) -> (v0, u2, v1) = x1
        lemma_swap_inner::<K>(v[1], u[2], v[0]);
        lemma_swap_outer::<K>(v[1], v[0], u[2]);
        lemma_swap_inner::<K>(v[0], v[1], u[2]);
        // x4 = (v2, u0, v1) -> (v2, v1, u0) -> (v1, v2, u0) -> (v1, u0, v2) = x3
        lemma_swap_inner::<K>(v[2], u[0], v[1]);
        lemma_swap_outer::<K>(v[2], v[1], u[0]);
        lemma_swap_inner::<K>(v[1], v[2], u[0]);
        // x5 = (v2, u1, v0) -> (v2, v0, u1) -> (v0, v2, u1) -> (v0, u1, v2) = x0
        lemma_swap_inner::<K>(v[2], u[1], v[0]);
        lemma_swap_outer::<K>(v[2], v[0], u[1]);
        lemma_swap_inner::<K>(v[0], v[2], u[1]);
        assert(x2 == x1 && x4 == x3 && x5 == x0);
    }
    lemma_cancel3::<K>(x0, x1, x2);
    lemma_cancel3_alt::<K>(x0, x1, x3);
    if w == u {
        assert(sum_seq(s) == z.spec_add(x0.spec_sub(x1)).spec_add(x2.spec_sub(x0)).spec_add(
            x1.spec_sub(x2),
        ));
    } else {
        assert(sum_seq(s) == z.spec_add(x0.spec_sub(x1)).spec_add(x1.spec_sub(x3)).spec_add(
            x3.spec_sub(x0),
        ));
    }
}

/// All elements of two three-element well-formed sequences, and all their
/// pairwise products, are well-formed.
proof fn proof_wf3<K: Field>(u: Seq<K>, v: Seq<K>)
    requires
        u.len() == 3,
        v.len() == 3,
        wf_seq(u),
        wf_seq(v),
    ensures
        u[0].wf() && u[1].wf() && u[2].wf(),
        v[0].wf() && v[1].wf() && v[2].wf(),
{
}

/// `(y * z) * x == x * (y * z)` with the factors of the inner product kept.
proof fn lemma_rot3<K: Field>(y: K, z: K, x: K)
    ensures
        y.spec_mul(z).spec_mul(x) == prod3(x, y, z),
{
    K::law_mul_comm(y.spec_mul(z), x);
}

/// Swapping the two left factors keeps a triple product.
proof fn lemma_swap_outer<K: Field>(a: K, b: K, c: K)
    ensures
        prod3(a, b, c) == prod3(b, a, c),
{
    // a*(b*c) == (a*b)*c == (b*a)*c == b*(a*c)
    K::law_mul_assoc(a, b, c);
    K::law_mul_comm(a, b);
    K::law_mul_assoc(b, a, c);
}

/// Swapping the two right factors keeps a triple product.
proof fn lemma_swap_inner<K: Field>(a: K, b: K, c: K)
    ensures
        prod3(a, b, c) == prod3(a, c, b),
{
    K::law_mul_comm(b, c);
}

/// `0 + (x-y) + (z-x) + (y-z) == 0`.
proof fn lemma_cancel3<K: Field>(x: K, y: K, z: K)
    ensures
        K::spec_zero().spec_add(x.spec_sub(y)).spec_add(z.spec_sub(x)).spec_add(y.spec_sub(z))
            == K::spec_zero(),
{
    let zero = K::spec_zero();
    K::law_consts();
    K::law_wf(x, y);
    K::law_wf(x, x);
    K::law_wf(y, y);
    K::law_wf(z, z);
    K::law_sub_def(x, y);
    K::law_sub_def(z, x);
    K::law_sub_def(y, z);
    // drop the leading zero
    K::law_add_comm(zero, x.spec_sub(y));
    K::law_add_zero(x.spec_sub(y));
    // (x + -y) + (z + -x) == (x + -x) + (-y + z)... first commute z + -x
    K::law_add_comm(z, x.spec_neg());
    lemma_add_shuffle::<K>(x, y.spec_neg(), x.spec_neg(), z);
    K::law_add_neg(x);
    K::law_wf(y.spec_neg(), z);
    K::law_add_comm(zero, y.spec_neg().spec_add(z));
    K::law_add_zero(y.spec_neg().spec_add(z));
    // (-y + z) + (y + -z) == (-y + y) + (z + -z) == 0 + 0 == 0
    lemma_add_shuffle::<K>(y.spec_neg(), z, y, z.spec_neg());
    K::law_add_comm(y.spec_neg(), y);
    K::law_add_neg(y);
    K::law_add_neg(z);
    K::law_add_zero(zero);
}

/// `0 + (x-y) + (y-w) + (w-x) == 0`.
proof fn lemma_cancel3_alt<K: Field>(x: K, y: K, w: K)
    ensures
        K::spec_zero().spec_add(x.spec_sub(y)).spec_add(y.spec_sub(w)).spec_add(w.spec_sub(x))
            == K::spec_zero(),
{
    lemma_cancel3::<K>(x, y, w);
    // 0 + (x-y) + (w-x) + (y-w) has the same three summands; regroup.
    let zero = K::spec_zero();
    let a = x.spec_sub(y);
    let b = y.spec_sub(w);
    let c = w.spec_sub(x);
    // (((0+a)+b)+c) == ((0+a)+(b+c)) == ((0+a)+(c+b)) == (((0+a)+c)+b)
    K::law_add_assoc(zero.spec_add(a), b, c);
    K::law_add_comm(b, c);
    K::law_add_assoc(zero.spec_add(a), c, b);
}

/// `lerp` at parameter zero returns the first operand.
pub proof fn lemma_lerp_zero<K: Field>(u: Seq<K>, v: Seq<K>)
    requires
        u.len() == v.len(),
        wf_seq(u),
        wf_seq(v),
    ensures
        spec_lerp(u, v, K::spec_zero()) == u,
{
    assert forall|i: int| 0 <= i < u.len() implies spec_lerp(u, v, K::spec_zero())[i] == u[i] by {
        K::law_mul_zero(v[i].spec_sub(u[i]));
        K::law_add_zero(u[i]);
    }
    assert(spec_lerp(u, v, K::spec_zero()) =~= u);
}

/// `lerp` at parameter one returns the second operand.
pub proof fn lemma_lerp_one<K: Field>(u: Seq<K>, v: Seq<K>)
    requires
        u.len() == v.len(),
        wf_seq(u),
        wf_seq(v),
    ensures
        spec_lerp(u, v, K::spec_one()) == v,
{
    assert forall|i: int| 0 <= i < u.len() implies spec_lerp(u, v, K::spec_one())[i] == v[i] by {
        let d = v[i].spec_sub(u[i]);
        K::law_wf(v[i], u[i]);
        K::law_mul_one(d);
        // u + (v + -u) == u + (-u + v) == (u + -u) + v == 0 + v == v
        K::law_sub_def(v[i], u[i]);
        K::law_wf(u[i], u[i]);
        K::law_add_comm(v[i], u[i].spec_neg());
        K::law_add_assoc(u[i], u[i].spec_neg(), v[i]);
        K::law_add_neg(u[i]);
        K::law_add_comm(K::spec_zero(), v[i]);
        K::law_add_zero(v[i]);
    }
    assert(spec_lerp(u, v, K::spec_one()) =~= v);
}

/// At a parameter `h` with `h + h == 1`, `lerp` returns the midpoint
/// `(u + v) * h`.
pub proof fn lemma_lerp_midpoint<K: Field>(u: Seq<K>, v: Seq<K>, h: K)
    requires
        u.len() == v.len(),
        wf_seq(u),
        wf_seq(v),
        h.wf(),
        h.spec_add(h) == K::spec_one(),
    ensures
        spec_lerp(u, v, h) == spec_vec_scl(spec_vec_add(u, v), h),
{
    assert forall|i: int| 0 <= i < u.len() implies spec_lerp(u, v, h)[i] == spec_vec_scl(
        spec_vec_add(u, v),
        h,
    )[i] by {
        let a = u[i];
        let b = v[i];
        let ah = a.spec_mul(h);
        let bh = b.spec_mul(h);
        K::law_wf(a, h);
        K::law_wf(b, h);
        // rhs: (a + b) * h == a*h + b*h
        lemma_add_mul::<K>(a, b, h);
        // lhs: a + (b - a)*h == a + (b*h - a*h)
        lemma_sub_mul::<K>(b, a, h);
        // a == a * 1 == a * (h + h) == a*h + a*h
        K::law_mul_one(a);
        K::law_distrib(a, h, h);
        // (a*h + a*h) + (b*h + -(a*h)) == (a*h + -(a*h)) + (a*h + b*h)
        K::law_sub_def(bh, ah);
        K::law_wf(ah, ah);
        K::law_add_comm(bh, ah.spec_neg());
        lemma_add_shuffle::<K>(ah, ah, ah.spec_neg(), bh);
        K::law_add_neg(ah);
        K::law_wf(ah, bh);
        K::law_add_comm(K::spec_zero(), ah.spec_add(bh));
        K::law_add_zero(ah.spec_add(bh));
    }
    assert(spec_lerp(u, v, h) =~= spec_vec_scl(spec_vec_add(u, v), h));
}

/// The linear combination of one vector with coefficient one is that
/// vector.
pub proof fn lemma_lincomb_single<K: Field>(v: Seq<K>)
    requires
        wf_seq(v),
    ensures
        spec_lincomb(seq![v], seq![K::spec_one()], v.len()) == v,
{
    let vs = seq![v];
    let cs = seq![K::spec_one()];
    assert forall|i: int| 0 <= i < v.len() implies spec_lincomb(vs, cs, v.len())[i] == v[i] by {
        let terms = lincomb_terms(vs, cs, i);
        assert(terms.len() == 1);
        assert(terms.drop_last().len() == 0);
        assert(sum_seq(terms.drop_last()) == K::spec_zero());
        assert(sum_seq(terms) == K::spec_zero().spec_add(terms.last()));
        assert(terms.last() == K::spec_one().spec_mul(v[i]));
        crate::field::lemma_one_mul::<K>(v[i]);
        K::law_consts();
        K::law_add_comm(K::spec_zero(), v[i]);
        K::law_add_zero(v[i]);
        assert(sum_seq(terms) == v[i]);
    }
    assert(spec_lincomb(seq![v], seq![K::spec_one()], v.len()) =~= v);
}

} // verus!
