//! The `Field` capability: the arithmetic a scalar type must support so
//! that vectors and matrices can be built over it.
//!
//! A scalar type brings its own specification-level operations
//! (`spec_add`, `spec_mul`, ...), executable counterparts tied to them by
//! contract, and proofs of the field laws. Generic code over `K: Field`
//! reasons purely through these laws, so everything proved about vectors
//! and matrices holds for every implementation.
//!
//! Not every bit pattern of an implementing type needs to be a canonical
//! scalar; `wf` singles out the well-formed values. Every operation
//! produces well-formed results, and the laws that mention a value on
//! their right-hand side require well-formed inputs.

use vstd::prelude::*;

verus! {

pub trait Field: Sized + Copy {
    /// The well-formed (canonical) values of the scalar type.
    spec fn wf(self) -> bool;

    /// The additive identity.
    spec fn spec_zero() -> Self;

    /// The multiplicative identity.
    spec fn spec_one() -> Self;

    spec fn spec_add(self, other: Self) -> Self;

    spec fn spec_sub(self, other: Self) -> Self;

    spec fn spec_mul(self, other: Self) -> Self;

    /// Division; unspecified when `other` is the additive identity.
    spec fn spec_div(self, other: Self) -> Self;

    spec fn spec_neg(self) -> Self;

    /// Absolute value, used for pivot selection.
    spec fn spec_abs(self) -> Self;

    /// The ordering used to compare absolute values during pivoting.
    spec fn spec_lt(self, other: Self) -> bool;

    fn zero() -> (r: Self)
        ensures
            r == Self::spec_zero(),
    ;

    fn one() -> (r: Self)
        ensures
            r == Self::spec_one(),
    ;

    fn add(self, other: Self) -> (r: Self)
        requires
            self.wf(),
            other.wf(),
        ensures
            r == self.spec_add(other),
    ;

    fn sub(self, other: Self) -> (r: Self)
        requires
            self.wf(),
            other.wf(),
        ensures
            r == self.spec_sub(other),
    ;

    fn mul(self, other: Self) -> (r: Self)
        requires
            self.wf(),
            other.wf(),
        ensures
            r == self.spec_mul(other),
    ;

    fn div(self, other: Self) -> (r: Self)
        requires
            self.wf(),
            other.wf(),
            other != Self::spec_zero(),
        ensures
            r == self.spec_div(other),
    ;

    fn neg(self) -> (r: Self)
        requires
            self.wf(),
        ensures
            r == self.spec_neg(),
    ;

    fn abs(self) -> (r: Self)
        requires
            self.wf(),
        ensures
            r == self.spec_abs(),
    ;

    fn eq_val(self, other: Self) -> (r: bool)
        requires
            self.wf(),
            other.wf(),
        ensures
            r == (self == other),
    ;

    fn lt(self, other: Self) -> (r: bool)
        requires
            self.wf(),
            other.wf(),
        ensures
            r == self.spec_lt(other),
    ;

    /// The identities are well-formed, distinct, and zero is its own
    /// absolute value.
    proof fn law_consts()
        ensures
            Self::spec_zero().wf(),
            Self::spec_one().wf(),
            Self::spec_zero() != Self::spec_one(),
            Self::spec_zero().spec_abs() == Self::spec_zero(),
    ;

    /// Every operation yields a well-formed value.
    proof fn law_wf(a: Self, b: Self)
        ensures
            a.spec_add(b).wf(),
            a.spec_sub(b).wf(),
            a.spec_mul(b).wf(),
            a.spec_div(b).wf(),
            a.spec_neg().wf(),
            a.spec_abs().wf(),
    ;

    proof fn law_add_comm(a: Self, b: Self)
        ensures
            a.spec_add(b) == b.spec_add(a),
    ;

    proof fn law_add_assoc(a: Self, b: Self, c: Self)
        ensures
            a.spec_add(b).spec_add(c) == a.spec_add(b.spec_add(c)),
    ;

    proof fn law_add_zero(a: Self)
        requires
            a.wf(),
        ensures
            a.spec_add(Self::spec_zero()) == a,
    ;

    proof fn law_add_neg(a: Self)
        ensures
            a.spec_add(a.spec_neg()) == Self::spec_zero(),
    ;

    proof fn law_sub_def(a: Self, b: Self)
        ensures
            a.spec_sub(b) == a.spec_add(b.spec_neg()),
    ;

    proof fn law_mul_comm(a: Self, b: Self)
        ensures
            a.spec_mul(b) == b.spec_mul(a),
    ;

    proof fn law_mul_assoc(a: Self, b: Self, c: Self)
        ensures
            a.spec_mul(b).spec_mul(c) == a.spec_mul(b.spec_mul(c)),
    ;

    proof fn law_mul_one(a: Self)
        requires
            a.wf(),
        ensures
            a.spec_mul(Self::spec_one()) == a,
    ;

    proof fn law_mul_zero(a: Self)
        ensures
            a.spec_mul(Self::spec_zero()) == Self::spec_zero(),
    ;

    proof fn law_distrib(a: Self, b: Self, c: Self)
        ensures
            a.spec_mul(b.spec_add(c)) == a.spec_mul(b).spec_add(a.spec_mul(c)),
    ;

    /// Dividing by a nonzero scalar and multiplying back is the identity.
    proof fn law_div_mul(a: Self, b: Self)
        requires
            a.wf(),
            b.wf(),
            b != Self::spec_zero(),
        ensures
            a.spec_div(b).spec_mul(b) == a,
    ;

    /// Multiplying by a nonzero scalar and dividing back is the identity.
    proof fn law_mul_div(a: Self, b: Self)
        requires
            a.wf(),
            b.wf(),
            b != Self::spec_zero(),
        ensures
            a.spec_mul(b).spec_div(b) == a,
    ;

    /// Only the additive identity has absolute value zero.
    proof fn law_abs_zero(a: Self)
        requires
            a.wf(),
        ensures
            (a.spec_abs() == Self::spec_zero()) <==> (a == Self::spec_zero()),
    ;

    /// No absolute value is below the absolute value of zero.
    proof fn law_abs_floor(a: Self)
        ensures
            !a.spec_abs().spec_lt(Self::spec_zero().spec_abs()),
    ;

    /// The pivot ordering is connex on well-formed values.
    proof fn law_lt_connex(a: Self, b: Self)
        requires
            a.wf(),
            b.wf(),
            a != b,
        ensures
            a.spec_lt(b) || b.spec_lt(a),
    ;
}

/// Every element of the sequence is a well-formed scalar.
pub open spec fn wf_seq<K: Field>(s: Seq<K>) -> bool {
    forall|i: int| 0 <= i < s.len() ==> (#[trigger] s[i]).wf()
}

/// Negating the additive identity gives it back.
pub proof fn lemma_neg_zero<K: Field>()
    ensures
        K::spec_zero().spec_neg() == K::spec_zero(),
{
    let z = K::spec_zero();
    K::law_consts();
    K::law_add_neg(z);
    K::law_add_comm(z, z.spec_neg());
    K::law_wf(z, z);
    K::law_add_zero(z.spec_neg());
}

/// Subtracting the additive identity changes nothing.
pub proof fn lemma_sub_zero<K: Field>(a: K)
    requires
        a.wf(),
    ensures
        a.spec_sub(K::spec_zero()) == a,
{
    K::law_sub_def(a, K::spec_zero());
    lemma_neg_zero::<K>();
    K::law_add_zero(a);
}

/// Subtracting a value from itself gives the additive identity.
pub proof fn lemma_sub_self<K: Field>(a: K)
    ensures
        a.spec_sub(a) == K::spec_zero(),
{
    K::law_sub_def(a, a);
    K::law_add_neg(a);
}

/// The additive identity absorbs multiplication from the left too.
pub proof fn lemma_zero_mul<K: Field>(a: K)
    ensures
        K::spec_zero().spec_mul(a) == K::spec_zero(),
{
    K::law_mul_comm(K::spec_zero(), a);
    K::law_mul_zero(a);
}

/// The multiplicative identity is neutral from the left too.
pub proof fn lemma_one_mul<K: Field>(a: K)
    requires
        a.wf(),
    ensures
        K::spec_one().spec_mul(a) == a,
{
    K::law_mul_comm(K::spec_one(), a);
    K::law_mul_one(a);
}

/// Dividing by the multiplicative identity changes nothing.
pub proof fn lemma_div_one<K: Field>(a: K)
    requires
        a.wf(),
    ensures
        a.spec_div(K::spec_one()) == a,
{
    K::law_consts();
    K::law_mul_one(a);
    K::law_mul_div(a, K::spec_one());
}

/// A nonzero value divided by itself is the multiplicative identity.
pub proof fn lemma_self_div<K: Field>(a: K)
    requires
        a.wf(),
        a != K::spec_zero(),
    ensures
        a.spec_div(a) == K::spec_one(),
{
    K::law_consts();
    lemma_one_mul::<K>(a);
    K::law_mul_div(K::spec_one(), a);
}

/// The additive identity divided by anything nonzero stays zero.
pub proof fn lemma_zero_div<K: Field>(b: K)
    requires
        b.wf(),
        b != K::spec_zero(),
    ensures
        K::spec_zero().spec_div(b) == K::spec_zero(),
{
    K::law_consts();
    lemma_zero_mul::<K>(b);
    K::law_mul_div(K::spec_zero(), b);
}

/// Multiplication by a nonzero scalar can be cancelled.
pub proof fn lemma_mul_cancel<K: Field>(q: K, r: K, p: K)
    requires
        q.wf(),
        r.wf(),
        p.wf(),
        p != K::spec_zero(),
        q.spec_mul(p) == r.spec_mul(p),
    ensures
        q == r,
{
    K::law_mul_div(q, p);
    K::law_mul_div(r, p);
}

/// Division is multiplication by the reciprocal.
pub proof fn lemma_div_as_mul<K: Field>(a: K, b: K)
    requires
        a.wf(),
        b.wf(),
        b != K::spec_zero(),
    ensures
        a.spec_div(b) == a.spec_mul(K::spec_one().spec_div(b)),
{
    K::law_consts();
    let q = a.spec_div(b);
    let w = K::spec_one().spec_div(b);
    let r = a.spec_mul(w);
    K::law_wf(a, b);
    K::law_wf(K::spec_one(), b);
    K::law_wf(a, w);
    // r * b == a * (w * b) == a * 1 == a == q * b, then cancel b.
    K::law_mul_assoc(a, w, b);
    K::law_div_mul(K::spec_one(), b);
    K::law_mul_one(a);
    K::law_div_mul(a, b);
    lemma_mul_cancel::<K>(r, q, b);
}

/// Additive inverses are unique.
pub proof fn lemma_neg_unique<K: Field>(x: K, y: K)
    requires
        y.wf(),
        x.spec_add(y) == K::spec_zero(),
    ensures
        y == x.spec_neg(),
{
    K::law_consts();
    K::law_wf(x, x);
    // y == y + 0 == y + (x + (-x)) == (y + x) + (-x) == 0 + (-x) == -x
    K::law_add_zero(y);
    K::law_add_neg(x);
    K::law_add_assoc(y, x, x.spec_neg());
    K::law_add_comm(y, x);
    K::law_add_comm(K::spec_zero(), x.spec_neg());
    K::law_add_zero(x.spec_neg());
}

/// Multiplication moves through negation.
pub proof fn lemma_mul_neg<K: Field>(a: K, b: K)
    requires
        a.wf(),
        b.wf(),
    ensures
        a.spec_mul(b.spec_neg()) == a.spec_mul(b).spec_neg(),
{
    K::law_wf(b, b);
    K::law_wf(a, b.spec_neg());
    K::law_distrib(a, b, b.spec_neg());
    K::law_add_neg(b);
    K::law_mul_zero(a);
    lemma_neg_unique::<K>(a.spec_mul(b), a.spec_mul(b.spec_neg()));
}

/// Multiplication distributes over subtraction from the left.
pub proof fn lemma_mul_sub<K: Field>(a: K, x: K, y: K)
    requires
        a.wf(),
        x.wf(),
        y.wf(),
    ensures
        a.spec_mul(x.spec_sub(y)) == a.spec_mul(x).spec_sub(a.spec_mul(y)),
{
    K::law_sub_def(x, y);
    K::law_wf(y, y);
    K::law_distrib(a, x, y.spec_neg());
    lemma_mul_neg::<K>(a, y);
    K::law_sub_def(a.spec_mul(x), a.spec_mul(y));
}

/// Multiplication distributes over subtraction from the right.
pub proof fn lemma_sub_mul<K: Field>(x: K, y: K, z: K)
    requires
        x.wf(),
        y.wf(),
        z.wf(),
    ensures
        x.spec_sub(y).spec_mul(z) == x.spec_mul(z).spec_sub(y.spec_mul(z)),
{
    K::law_wf(x, y);
    K::law_mul_comm(x.spec_sub(y), z);
    lemma_mul_sub::<K>(z, x, y);
    K::law_mul_comm(z, x);
    K::law_mul_comm(z, y);
}

/// Addition distributes over addition from the right.
pub proof fn lemma_add_mul<K: Field>(x: K, y: K, z: K)
    requires
        z.wf(),
    ensures
        x.spec_add(y).spec_mul(z) == x.spec_mul(z).spec_add(y.spec_mul(z)),
{
    K::law_mul_comm(x.spec_add(y), z);
    K::law_distrib(z, x, y);
    K::law_mul_comm(z, x);
    K::law_mul_comm(z, y);
}

/// The negated multiplicative identity is not the additive identity.
pub proof fn lemma_neg_one_nonzero<K: Field>()
    ensures
        K::spec_one().spec_neg() != K::spec_zero(),
{
    K::law_consts();
    if K::spec_one().spec_neg() == K::spec_zero() {
        K::law_add_neg(K::spec_one());
        K::law_add_zero(K::spec_one());
        assert(false);
    }
}

/// Addition by a common term can be cancelled.
pub proof fn lemma_add_cancel<K: Field>(a: K, b: K, c: K)
    requires
        a.wf(),
        b.wf(),
        a.spec_add(c) == b.spec_add(c),
    ensures
        a == b,
{
    K::law_wf(c, c);
    K::law_add_neg(c);
    K::law_add_assoc(a, c, c.spec_neg());
    K::law_add_assoc(b, c, c.spec_neg());
    K::law_add_zero(a);
    K::law_add_zero(b);
}

/// Four summands may be regrouped pairwise.
pub proof fn lemma_add_shuffle<K: Field>(p: K, q: K, r: K, s: K)
    ensures
        p.spec_add(q).spec_add(r.spec_add(s)) == p.spec_add(r).spec_add(q.spec_add(s)),
{
    // (p+q)+(r+s) == p+(q+(r+s)) == p+((q+r)+s) == p+((r+q)+s)
    //            == p+(r+(q+s)) == (p+r)+(q+s)
    K::law_add_assoc(p, q, r.spec_add(s));
    K::law_add_assoc(q, r, s);
    K::law_add_comm(q, r);
    K::law_add_assoc(r, q, s);
    K::law_add_assoc(p, r, q.spec_add(s));
}

} // verus!
