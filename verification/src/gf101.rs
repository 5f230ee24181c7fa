//! `Gf101`, the prime field of order 101: the crate's verified scalar
//! instance.
//!
//! A value is a residue `0..101`; arithmetic is exact, so the algebraic
//! laws of [`crate::field::Field`] hold on the nose rather than up to a
//! rounding error. Division is by the modular inverse, whose existence
//! for every nonzero residue is proved from the primality of the modulus.

use vstd::prelude::*;
use vstd::arithmetic::div_mod::{
    lemma_add_mod_noop, lemma_add_mod_noop_right, lemma_fundamental_div_mod, lemma_mod_bound,
    lemma_mod_add_multiples_vanish, lemma_mod_multiples_basic, lemma_mod_multiples_vanish,
    lemma_mul_mod_noop_left, lemma_mul_mod_noop_right, lemma_small_mod,
};
use vstd::arithmetic::mul::{lemma_mul_is_associative, lemma_mul_is_distributive_add};
use crate::field::Field;

verus! {

/// The order of the field: a prime.
pub const GF_MOD: u64 = 101;

/// An element of the prime field of order [`GF_MOD`].
#[derive(Clone, Copy, Debug, PartialEq, Eq, Structural)]
pub struct Gf101 {
    v: u64,
}

/// The canonical residue with the value of `x`.
spec fn norm_int(x: int) -> Gf101 {
    Gf101 { v: (x % 101) as u64 }
}

/// The modular inverse of `b`, when one exists.
spec fn spec_inv(b: Gf101) -> Gf101 {
    Gf101 { v: (choose|x: int| 0 <= x < 101 && #[trigger] ((b.v as int * x) % 101) == 1) as u64 }
}

/// 101 has no divisor strictly between 1 and itself.
proof fn lemma_no_divisor(d: int)
    requires
        1 < d < 101,
    ensures
        101int % d != 0,
    decreases d,
{
    if d <= 10 {
        if d == 2 {
            assert(101int % 2 == 1);
        } else if d == 3 {
            assert(101int % 3 == 2);
        } else if d == 4 {
            assert(101int % 4 == 1);
        } else if d == 5 {
            assert(101int % 5 == 1);
        } else if d == 6 {
            assert(101int % 6 == 5);
        } else if d == 7 {
            assert(101int % 7 == 3);
        } else if d == 8 {
            assert(101int % 8 == 5);
        } else if d == 9 {
            assert(101int % 9 == 2);
        } else {
            assert(101int % 10 == 1);
        }
    } else {
        if 101int % d == 0 {
            let q = 101int / d;
            lemma_fundamental_div_mod(101, d);
            assert(101int == d * q);
            assert(q >= 1) by (nonlinear_arith)
                requires
                    d * q == 101,
                    11 <= d < 101,
            ;
            assert(q != 1) by (nonlinear_arith)
                requires
                    d * q == 101,
                    11 <= d < 101,
            ;
            assert(q <= 9) by (nonlinear_arith)
                requires
                    d * q == 101,
                    11 <= d < 101,
                    q >= 2,
            ;
            lemma_mod_multiples_basic(d, q);
            assert(101int % q == 0);
            lemma_no_divisor(q);
            assert(false);
        }
    }
}

/// Every residue `1..101` has a multiplicative inverse modulo 101.
proof fn lemma_inv_exists(a: int)
    requires
        1 <= a < 101,
    ensures
        exists|x: int| 0 <= x < 101 && #[trigger] ((a * x) % 101) == 1,
    decreases a,
{
    if a == 1 {
        assert((1int * 1) % 101 == 1);
        assert(0 <= 1int < 101 && (a * 1) % 101 == 1);
    } else {
        let q = 101int / a;
        let r = 101int % a;
        lemma_fundamental_div_mod(101, a);
        lemma_mod_bound(101, a);
        assert(101int == a * q + r);
        if r == 0 {
            lemma_no_divisor(a);
            assert(false);
        }
        lemma_inv_exists(r);
        let y = choose|y: int| 0 <= y < 101 && #[trigger] ((r * y) % 101) == 1;
        let m1 = (a * q) * y;
        assert(r * y == 101 * y + (0 - m1)) by (nonlinear_arith)
            requires
                r == 101 - a * q,
                m1 == (a * q) * y,
        ;
        lemma_mod_multiples_vanish(y, 0 - m1, 101);
        assert((0 - m1) % 101 == 1);
        let x0 = (0 - q * y) % 101;
        lemma_mod_bound(0 - q * y, 101);
        lemma_mul_mod_noop_right(a, 0 - q * y, 101);
        assert(a * (0 - q * y) == 0 - m1) by (nonlinear_arith)
            requires
                m1 == (a * q) * y,
        ;
        assert((a * x0) % 101 == 1);
        assert(0 <= x0 < 101 && (a * x0) % 101 == 1);
    }
}

/// A residue has at most one inverse in `0..101`.
proof fn lemma_inv_unique(b: int, x1: int, x2: int)
    requires
        0 <= b < 101,
        0 <= x1 < 101,
        0 <= x2 < 101,
        (b * x1) % 101 == 1,
        (b * x2) % 101 == 1,
    ensures
        x1 == x2,
{
    lemma_small_mod(x1 as nat, 101);
    lemma_mul_mod_noop_right(x1, b * x2, 101);
    assert(x1 * (b * x2) == (x1 * b) * x2) by (nonlinear_arith);
    lemma_mul_mod_noop_left(x1 * b, x2, 101);
    assert(x1 * b == b * x1) by (nonlinear_arith);
    assert((x1 * ((b * x2) % 101)) % 101 == ((x1 * b) % 101 * x2) % 101);
    assert((x1 * 1) % 101 == (1 * x2) % 101);
    lemma_small_mod(x2 as nat, 101);
}

impl Gf101 {
    /// The residue's value.
    pub closed spec fn val(self) -> int {
        self.v as int
    }

    /// The residue class of `x`.
    pub fn from_u64(x: u64) -> (r: Self)
        ensures
            r.wf(),
            r.val() == x as int % 101,
    {
        Gf101 { v: x % GF_MOD }
    }

    /// The residue's value.
    pub fn repr(self) -> (r: u64)
        ensures
            r as int == self.val(),
    {
        self.v
    }

    /// A value is well-formed exactly when it is a canonical residue.
    pub proof fn lemma_wf_range(self)
        ensures
            self.wf() <==> 0 <= self.val() < 101,
    {
    }

    /// Two residues with the same value are the same residue.
    pub proof fn lemma_val_injective(a: Self, b: Self)
        requires
            a.val() == b.val(),
        ensures
            a == b,
    {
    }

    /// The identities by value.
    pub proof fn lemma_val_consts()
        ensures
            Gf101::spec_zero().val() == 0,
            Gf101::spec_one().val() == 1,
    {
    }

    /// The arithmetic of residues by value.
    pub proof fn lemma_val_ops(a: Self, b: Self)
        ensures
            a.spec_add(b).val() == (a.val() + b.val()) % 101,
            a.spec_sub(b).val() == (a.val() - b.val()) % 101,
            a.spec_mul(b).val() == (a.val() * b.val()) % 101,
            a.spec_neg().val() == (0 - a.val()) % 101,
            a.spec_abs().val() == a.val() % 101,
            a.spec_lt(b) <==> a.val() < b.val(),
    {
    }
}

impl Field for Gf101 {
    closed spec fn wf(self) -> bool {
        self.v < 101
    }

    closed spec fn spec_zero() -> Self {
        Gf101 { v: 0 }
    }

    closed spec fn spec_one() -> Self {
        Gf101 { v: 1 }
    }

    closed spec fn spec_add(self, other: Self) -> Self {
        norm_int(self.v + other.v)
    }

    closed spec fn spec_sub(self, other: Self) -> Self {
        norm_int(self.v - other.v)
    }

    closed spec fn spec_mul(self, other: Self) -> Self {
        norm_int(self.v * other.v)
    }

    closed spec fn spec_div(self, other: Self) -> Self {
        norm_int(self.v * spec_inv(other).v)
    }

    closed spec fn spec_neg(self) -> Self {
        norm_int(0 - self.v)
    }

    closed spec fn spec_abs(self) -> Self {
        norm_int(self.v as int)
    }

    closed spec fn spec_lt(self, other: Self) -> bool {
        self.v < other.v
    }

    fn zero() -> (r: Self) {
        Gf101 { v: 0 }
    }

    fn one() -> (r: Self) {
        Gf101 { v: 1 }
    }

    fn add(self, other: Self) -> (r: Self) {
        Gf101 { v: (self.v + other.v) % GF_MOD }
    }

    fn sub(self, other: Self) -> (r: Self) {
        proof {
            lemma_mod_add_multiples_vanish(self.v - other.v, 101);
        }
        Gf101 { v: (self.v + GF_MOD - other.v) % GF_MOD }
    }

    fn mul(self, other: Self) -> (r: Self) {
        proof {
            assert(self.v * other.v < 10201) by (nonlinear_arith)
                requires
                    self.v < 101,
                    other.v < 101,
            ;
        }
        Gf101 { v: (self.v * other.v) % GF_MOD }
    }

    fn div(self, other: Self) -> (r: Self) {
        let mut c: u64 = 0;
        while c < 101
            invariant
                self.wf(),
                other.wf(),
                other.v >= 1,
                c <= 101,
                forall|j: int| 0 <= j < c ==> #[trigger] ((other.v as int * j) % 101) != 1,
            decreases 101 - c,
        {
            proof {
                assert(other.v * c < 10302 && self.v * c < 10302) by (nonlinear_arith)
                    requires
                        self.v < 101,
                        other.v < 101,
                        c <= 101,
                ;
            }
            if (other.v * c) % GF_MOD == 1 {
                proof {
                    lemma_inv_exists(other.v as int);
                    let x = choose|x: int| 0 <= x < 101 && #[trigger] ((other.v as int * x) % 101) == 1;
                    lemma_inv_unique(other.v as int, x, c as int);
                    assert(spec_inv(other).v == c);
                }
                return Gf101 { v: (self.v * c) % GF_MOD };
            }
            c = c + 1;
        }
        proof {
            lemma_inv_exists(other.v as int);
            let x = choose|x: int| 0 <= x < 101 && #[trigger] ((other.v as int * x) % 101) == 1;
            assert((other.v as int * x) % 101 != 1);
            assert(false);
        }
        Gf101 { v: 0 }
    }

    fn neg(self) -> (r: Self) {
        proof {
            lemma_mod_add_multiples_vanish(0 - self.v, 101);
        }
        Gf101 { v: (GF_MOD - self.v) % GF_MOD }
    }

    fn abs(self) -> (r: Self) {
        proof {
            lemma_small_mod(self.v as nat, 101);
        }
        self
    }

    fn eq_val(self, other: Self) -> (r: bool) {
        self.v == other.v
    }

    fn lt(self, other: Self) -> (r: bool) {
        self.v < other.v
    }

    proof fn law_consts() {
    }

    proof fn law_wf(a: Self, b: Self) {
    }

    proof fn law_add_comm(a: Self, b: Self) {
    }

    proof fn law_add_assoc(a: Self, b: Self, c: Self) {
        let p = 101int;
        lemma_add_mod_noop_right(c.v as int, a.v + b.v, p);
        lemma_add_mod_noop_right(a.v as int, b.v + c.v, p);
        assert((c.v + (a.v + b.v)) % p == (a.v + (b.v + c.v)) % p);
    }

    proof fn law_add_zero(a: Self) {
        lemma_small_mod(a.v as nat, 101);
    }

    proof fn law_add_neg(a: Self) {
        lemma_add_mod_noop_right(a.v as int, 0 - a.v, 101);
    }

    proof fn law_sub_def(a: Self, b: Self) {
        lemma_add_mod_noop_right(a.v as int, 0 - b.v, 101);
    }

    proof fn law_mul_comm(a: Self, b: Self) {
        assert(a.v * b.v == b.v * a.v) by (nonlinear_arith);
    }

    proof fn law_mul_assoc(a: Self, b: Self, c: Self) {
        let p = 101int;
        lemma_mul_mod_noop_left(a.v * b.v, c.v as int, p);
        lemma_mul_mod_noop_right(a.v as int, b.v * c.v, p);
        lemma_mul_is_associative(a.v as int, b.v as int, c.v as int);
    }

    proof fn law_mul_one(a: Self) {
        lemma_small_mod(a.v as nat, 101);
    }

    proof fn law_mul_zero(a: Self) {
    }

    proof fn law_distrib(a: Self, b: Self, c: Self) {
        let p = 101int;
        lemma_mul_mod_noop_right(a.v as int, b.v + c.v, p);
        lemma_mul_is_distributive_add(a.v as int, b.v as int, c.v as int);
        lemma_add_mod_noop(a.v * b.v, a.v * c.v, p);
    }

    proof fn law_div_mul(a: Self, b: Self) {
        let p = 101int;
        lemma_inv_exists(b.v as int);
        let x = choose|x: int| 0 <= x < 101 && #[trigger] ((b.v as int * x) % 101) == 1;
        assert(spec_inv(b).v == x);
        // ((a*x) % p * b) % p == (a*x*b) % p == (a * ((x*b) % p)) % p == a % p == a
        lemma_mul_mod_noop_left(a.v * x, b.v as int, p);
        lemma_mul_is_associative(a.v as int, x, b.v as int);
        lemma_mul_mod_noop_right(a.v as int, x * b.v, p);
        assert(x * b.v == b.v * x) by (nonlinear_arith);
        lemma_small_mod(a.v as nat, 101);
        assert(a.spec_div(b).spec_mul(b) == a);
    }

    proof fn law_mul_div(a: Self, b: Self) {
        let p = 101int;
        lemma_inv_exists(b.v as int);
        let x = choose|x: int| 0 <= x < 101 && #[trigger] ((b.v as int * x) % 101) == 1;
        assert(spec_inv(b).v == x);
        // ((a*b) % p * x) % p == (a*b*x) % p == (a * ((b*x) % p)) % p == a % p == a
        lemma_mul_mod_noop_left(a.v * b.v, x, p);
        lemma_mul_is_associative(a.v as int, b.v as int, x);
        lemma_mul_mod_noop_right(a.v as int, b.v * x, p);
        lemma_small_mod(a.v as nat, 101);
        assert(a.spec_mul(b).spec_div(b) == a);
    }

    proof fn law_abs_zero(a: Self) {
        lemma_small_mod(a.v as nat, 101);
    }

    proof fn law_abs_floor(a: Self) {
    }

    proof fn law_lt_connex(a: Self, b: Self) {
    }
}

} // verus!
