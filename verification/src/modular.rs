//! Canonical residues modulo a positive integer, and the ring laws that
//! hold for them.
//!
//! Spec-level `%` is Euclidean, so for a positive modulus every residue
//! lies in `[0, m)`; the executable field operations in `field` are
//! specified against the functions of this module.

use vstd::prelude::*;

verus! {

use vstd::arithmetic::div_mod::lemma_add_mod_noop;
use vstd::arithmetic::div_mod::lemma_add_mod_noop_right;
use vstd::arithmetic::div_mod::lemma_mod_bound;
use vstd::arithmetic::div_mod::lemma_mul_mod_noop_left;
use vstd::arithmetic::div_mod::lemma_mul_mod_noop_right;
use vstd::arithmetic::div_mod::lemma_small_mod;
use vstd::arithmetic::mul::lemma_mul_is_associative;
use vstd::arithmetic::mul::lemma_mul_is_distributive_add;
use vstd::arithmetic::power::pow;

/// Sum of two residues modulo `m`.
pub open spec fn fadd(a: int, b: int, m: int) -> int {
    (a + b) % m
}

/// Difference of two residues modulo `m`.
pub open spec fn fsub(a: int, b: int, m: int) -> int {
    (a - b) % m
}

/// Additive inverse of a residue modulo `m`.
pub open spec fn fneg(a: int, m: int) -> int {
    (-a) % m
}

/// Product of two residues modulo `m`.
pub open spec fn fmul(a: int, b: int, m: int) -> int {
    (a * b) % m
}

/// `a` raised to a non-negative exponent, modulo `m`.
pub open spec fn fpow(a: int, e: nat, m: int) -> int {
    pow(a, e) % m
}

/// Multiplicative inverse by Fermat exponentiation: `a^(m-2) mod m`.
/// Correct for prime `m` and `a` not a multiple of `m`
/// (`numtheory::lemma_fermat_inverse`).
pub open spec fn finv(a: int, m: int) -> int {
    fpow(a, (m - 2) as nat, m)
}

/// Quotient of two residues: multiplication by the Fermat inverse.
pub open spec fn fdiv(a: int, b: int, m: int) -> int {
    fmul(a, finv(b, m), m)
}

/// A residue is in canonical range.
pub open spec fn in_range(a: int, m: int) -> bool {
    0 <= a < m
}

/// Every operation returns a canonical residue: closure, the normal form
/// of the field.
pub proof fn lemma_ops_in_range(a: int, b: int, e: nat, m: int)
    requires
        m > 0,
    ensures
        in_range(fadd(a, b, m), m),
        in_range(fsub(a, b, m), m),
        in_range(fneg(a, m), m),
        in_range(fmul(a, b, m), m),
        in_range(fpow(a, e, m), m),
{
    lemma_mod_bound(a + b, m);
    lemma_mod_bound(a - b, m);
    lemma_mod_bound(-a, m);
    lemma_mod_bound(a * b, m);
    lemma_mod_bound(pow(a, e), m);
}

/// Addition of residues is commutative.
pub proof fn lemma_add_comm(a: int, b: int, m: int)
    ensures
        fadd(a, b, m) == fadd(b, a, m),
{
}

/// Addition of residues is associative.
pub proof fn lemma_add_assoc(a: int, b: int, c: int, m: int)
    requires
        m > 0,
        in_range(c, m),
        in_range(a, m),
    ensures
        fadd(fadd(a, b, m), c, m) == fadd(a, fadd(b, c, m), m),
{
    lemma_small_mod(c as nat, m as nat);
    lemma_add_mod_noop(a + b, c, m);
    lemma_small_mod(a as nat, m as nat);
    lemma_add_mod_noop(a, b + c, m);
}

/// Zero is the additive identity.
pub proof fn lemma_add_zero(a: int, m: int)
    requires
        m > 0,
        in_range(a, m),
    ensures
        fadd(a, 0, m) == a,
        fadd(0, a, m) == a,
{
    lemma_small_mod(a as nat, m as nat);
}

/// Every residue cancels with its additive inverse.
pub proof fn lemma_add_neg(a: int, m: int)
    requires
        m > 0,
    ensures
        fadd(a, fneg(a, m), m) == 0,
{
    lemma_add_mod_noop_right(a, -a, m);
    lemma_small_mod(0, m as nat);
}

/// Multiplication of residues is commutative.
pub proof fn lemma_mul_comm(a: int, b: int, m: int)
    ensures
        fmul(a, b, m) == fmul(b, a, m),
{
}

/// Multiplication of residues is associative.
pub proof fn lemma_mul_assoc(a: int, b: int, c: int, m: int)
    requires
        m > 0,
        in_range(a, m),
        in_range(c, m),
    ensures
        fmul(fmul(a, b, m), c, m) == fmul(a, fmul(b, c, m), m),
{
    lemma_mul_mod_noop_left(a * b, c, m);
    lemma_mul_mod_noop_right(a, b * c, m);
    lemma_mul_is_associative(a, b, c);
}

/// One is the multiplicative identity.
pub proof fn lemma_mul_one(a: int, m: int)
    requires
        m > 0,
        in_range(a, m),
    ensures
        fmul(a, 1, m) == a,
        fmul(1, a, m) == a,
{
    lemma_small_mod(a as nat, m as nat);
}

/// Multiplication distributes over addition.
pub proof fn lemma_mul_distrib(a: int, b: int, c: int, m: int)
    requires
        m > 0,
    ensures
        fmul(a, fadd(b, c, m), m) == fadd(fmul(a, b, m), fmul(a, c, m), m),
{
    lemma_mul_mod_noop_right(a, b + c, m);
    lemma_mul_is_distributive_add(a, b, c);
    lemma_add_mod_noop(a * b, a * c, m);
}

} // verus!
