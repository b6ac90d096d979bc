//! Elements of a prime field, reduced modulo a statically named prime.
//!
//! A `LimitedFieldElement<P>` is a canonical residue modulo `P`'s prime;
//! elements of different fields have different types, so they cannot be
//! mixed. The prime is trusted to be prime (it is never checked); the
//! laws that depend on primality (`numtheory`) say so in their premises.

use core::marker::PhantomData;
use vstd::prelude::*;

verus! {

use crate::modular::fadd;
use crate::modular::fdiv;
use crate::modular::fmul;
use crate::modular::fneg;
use crate::modular::fpow;
use crate::modular::fsub;
use vstd::arithmetic::div_mod::lemma_mod_add_multiples_vanish;
use vstd::arithmetic::div_mod::lemma_mod_bound;
use vstd::arithmetic::div_mod::lemma_mod_multiples_vanish;
use vstd::arithmetic::div_mod::lemma_mul_mod_noop_left;
use vstd::arithmetic::div_mod::lemma_mul_mod_noop_right;
use vstd::arithmetic::div_mod::lemma_small_mod;
use vstd::arithmetic::mul::lemma_mul_upper_bound;
use vstd::arithmetic::power::pow;

/// A type that names a fixed positive prime modulus.
///
/// Implementations promise only that the modulus is at least two; that
/// it is a prime number is trusted, exactly as the arithmetic itself
/// trusts it.
pub trait Prime: Sized + Copy {
    /// The modulus this type names.
    spec fn prime_spec() -> nat;

    /// The modulus is large enough to be a modulus at all.
    proof fn prime_at_least_two()
        ensures
            Self::prime_spec() >= 2,
    ;

    /// The modulus as a machine word.
    fn get_prime() -> (r: u64)
        ensures
            r as nat == Self::prime_spec(),
    ;
}

#[derive(Debug, Clone, Copy, PartialEq, Eq)]
pub struct Prime13;

impl Prime for Prime13 {
    open spec fn prime_spec() -> nat {
        13
    }

    proof fn prime_at_least_two() {
    }

    fn get_prime() -> u64 {
        13
    }
}

#[derive(Debug, Clone, Copy, PartialEq, Eq)]
pub struct Prime19;

impl Prime for Prime19 {
    open spec fn prime_spec() -> nat {
        19
    }

    proof fn prime_at_least_two() {
    }

    fn get_prime() -> u64 {
        19
    }
}

#[derive(Debug, Clone, Copy, PartialEq, Eq)]
pub struct Prime29;

impl Prime for Prime29 {
    open spec fn prime_spec() -> nat {
        29
    }

    proof fn prime_at_least_two() {
    }

    fn get_prime() -> u64 {
        29
    }
}

#[derive(Debug, Clone, Copy, PartialEq, Eq)]
pub struct Prime223;

impl Prime for Prime223 {
    open spec fn prime_spec() -> nat {
        223
    }

    proof fn prime_at_least_two() {
    }

    fn get_prime() -> u64 {
        223
    }
}

/// The error a field operation can report: dividing by the zero element.
#[derive(Debug, Clone, Copy, PartialEq, Eq, Structural)]
pub enum FieldError {
    DivisionByZero,
}

/// An element of the prime field named by `P`: a residue in
/// `[0, P::prime_spec())`.
#[derive(Debug)]
pub struct LimitedFieldElement<P: Prime> {
    v: u64,
    marker: PhantomData<P>,
}

impl<P: Prime> Clone for LimitedFieldElement<P> {
    fn clone(&self) -> (r: Self)
        ensures
            r == *self,
    {
        *self
    }
}

impl<P: Prime> Copy for LimitedFieldElement<P> {

}

impl<P: Prime> LimitedFieldElement<P> {
    /// The canonical representative of this element.
    pub closed spec fn value(self) -> nat {
        self.v as nat
    }

    /// The element is in canonical range.
    pub open spec fn wf(self) -> bool {
        self.value() < P::prime_spec()
    }

    /// The element with representative `v`, as a spec value.
    closed spec fn make(v: u64) -> Self {
        LimitedFieldElement { v, marker: PhantomData }
    }

    /// Accepts a representative that is already canonical; refuses one
    /// that is out of range.
    pub fn new(value: u64) -> (r: Option<Self>)
        ensures
            (value as nat) < P::prime_spec() <==> r is Some,
            r matches Some(x) ==> x.wf() && x.value() == value as nat,
    {
        let p: u64 = P::get_prime();
        if value >= p {
            None
        } else {
            Some(LimitedFieldElement { v: value, marker: PhantomData })
        }
    }

    /// `new`, for callers that start from a machine word.
    pub fn new_from_u64(value: u64) -> (r: Option<Self>)
        ensures
            (value as nat) < P::prime_spec() <==> r is Some,
            r matches Some(x) ==> x.wf() && x.value() == value as nat,
    {
        Self::new(value)
    }

    /// The element whose representative is `value` reduced modulo the
    /// prime; never refuses.
    pub fn new_reduced(value: u64) -> (r: Self)
        ensures
            r.wf(),
            r.value() as int == (value as int) % (P::prime_spec() as int),
    {
        let p: u64 = P::get_prime();
        proof {
            P::prime_at_least_two();
            lemma_mod_bound(value as int, p as int);
        }
        LimitedFieldElement { v: value % p, marker: PhantomData }
    }

    /// The element a signed integer maps to: its Euclidean remainder
    /// modulo the prime.
    pub fn from_signed(k: i64) -> (r: Self)
        ensures
            r.wf(),
            r.value() as int == (k as int) % (P::prime_spec() as int),
    {
        let p: u64 = P::get_prime();
        proof {
            P::prime_at_least_two();
        }
        let v: u64 = euclid_rem(k as i128, p);
        LimitedFieldElement { v, marker: PhantomData }
    }

    /// Sum in the field.
    pub fn add(self, rhs: Self) -> (r: Self)
        requires
            self.wf(),
            rhs.wf(),
        ensures
            r.wf(),
            r.value() as int == fadd(self.value() as int, rhs.value() as int, P::prime_spec() as int),
    {
        let p: u64 = P::get_prime();
        proof {
            P::prime_at_least_two();
            lemma_mod_bound(self.v + rhs.v, p as int);
        }
        let s: u64 = (((self.v as u128) + (rhs.v as u128)) % (p as u128)) as u64;
        LimitedFieldElement { v: s, marker: PhantomData }
    }

    /// Difference in the field, computed as addition of the additive
    /// inverse.
    pub fn sub(self, rhs: Self) -> (r: Self)
        requires
            self.wf(),
            rhs.wf(),
        ensures
            r.wf(),
            r.value() as int == fsub(self.value() as int, rhs.value() as int, P::prime_spec() as int),
    {
        let p: u64 = P::get_prime();
        proof {
            P::prime_at_least_two();
            lemma_mod_add_multiples_vanish(self.v - rhs.v, p as int);
            lemma_mod_bound(self.v - rhs.v, p as int);
        }
        let s: u64 = (((self.v as u128) + ((p - rhs.v) as u128)) % (p as u128)) as u64;
        LimitedFieldElement { v: s, marker: PhantomData }
    }

    /// Additive inverse in the field.
    pub fn neg(self) -> (r: Self)
        requires
            self.wf(),
        ensures
            r.wf(),
            r.value() as int == fneg(self.value() as int, P::prime_spec() as int),
    {
        let p: u64 = P::get_prime();
        proof {
            P::prime_at_least_two();
            lemma_mod_add_multiples_vanish(-(self.v as int), p as int);
            if self.v > 0 {
                lemma_small_mod((p - self.v) as nat, p as nat);
            } else {
                lemma_small_mod(0nat, p as nat);
            }
        }
        let v: u64 = if self.v == 0 {
            0
        } else {
            p - self.v
        };
        LimitedFieldElement { v, marker: PhantomData }
    }

    /// Product in the field.
    pub fn mul(self, rhs: Self) -> (r: Self)
        requires
            self.wf(),
            rhs.wf(),
        ensures
            r.wf(),
            r.value() as int == fmul(self.value() as int, rhs.value() as int, P::prime_spec() as int),
    {
        let p: u64 = P::get_prime();
        proof {
            P::prime_at_least_two();
            lemma_mod_bound(self.v * rhs.v, p as int);
            lemma_mul_upper_bound(self.v as int, u64::MAX as int, rhs.v as int, u64::MAX as int);
        }
        let s: u64 = (((self.v as u128) * (rhs.v as u128)) % (p as u128)) as u64;
        LimitedFieldElement { v: s, marker: PhantomData }
    }

    /// Power with a signed exponent.
    ///
    /// The exponent is first replaced by its Euclidean remainder modulo
    /// `prime - 1`; by Fermat's little theorem that changes nothing for
    /// a nonzero base when the modulus is prime
    /// (`numtheory::lemma_pow_reduction_sound`).
    pub fn pow(self, e: i128) -> (r: Self)
        requires
            self.wf(),
        ensures
            r.wf(),
            r.value() as int == fpow(
                self.value() as int,
                ((e as int) % (P::prime_spec() - 1)) as nat,
                P::prime_spec() as int,
            ),
    {
        let p: u64 = P::get_prime();
        proof {
            P::prime_at_least_two();
        }
        let er: u64 = euclid_rem(e, p - 1);
        let v: u64 = modpow(self.v, er, p);
        LimitedFieldElement { v, marker: PhantomData }
    }

    /// Quotient in the field: multiplication by the Fermat inverse
    /// `rhs^(prime - 2)`. Dividing by the zero element is refused.
    pub fn div(self, rhs: Self) -> (r: Result<Self, FieldError>)
        requires
            self.wf(),
            rhs.wf(),
        ensures
            rhs.value() == 0 <==> r is Err,
            r is Err ==> r == Err::<Self, FieldError>(FieldError::DivisionByZero),
            r matches Ok(q) ==> q.wf() && q.value() as int == fdiv(
                self.value() as int,
                rhs.value() as int,
                P::prime_spec() as int,
            ),
    {
        if rhs.is_zero() {
            Err(FieldError::DivisionByZero)
        } else {
            let p: u64 = P::get_prime();
            proof {
                P::prime_at_least_two();
                lemma_small_mod((p - 2) as nat, (p - 1) as nat);
            }
            let inv: Self = rhs.pow((p - 2) as i128);
            Ok(self.mul(inv))
        }
    }

    /// Whether this is the zero element.
    pub fn is_zero(self) -> (r: bool)
        ensures
            r <==> self.value() == 0,
    {
        self.v == 0
    }
}

impl<P: Prime> PartialEq for LimitedFieldElement<P> {
    /// Elements are equal exactly when their representatives are.
    fn eq(&self, other: &Self) -> (r: bool) {
        self.v == other.v
    }
}

impl<P: Prime> vstd::std_specs::cmp::PartialEqSpecImpl for LimitedFieldElement<P> {
    open spec fn obeys_eq_spec() -> bool {
        true
    }

    open spec fn eq_spec(&self, other: &Self) -> bool {
        self.value() == other.value()
    }
}

impl<P: Prime> From<i64> for LimitedFieldElement<P> {
    /// A signed integer maps to its Euclidean remainder modulo the
    /// prime.
    fn from(v: i64) -> (r: Self) {
        Self::from_signed(v)
    }
}

impl<P: Prime> vstd::std_specs::convert::FromSpecImpl<i64> for LimitedFieldElement<P> {
    open spec fn obeys_from_spec() -> bool {
        true
    }

    closed spec fn from_spec(v: i64) -> Self {
        Self::make((((v as int) % (P::prime_spec() as int)) as nat) as u64)
    }
}

/// Euclidean remainder of a signed integer by a positive modulus: the
/// unique representative in `[0, m)`.
fn euclid_rem(e: i128, m: u64) -> (r: u64)
    requires
        m >= 1,
    ensures
        r as int == (e as int) % (m as int),
{
    let mm: u128 = m as u128;
    if e >= 0 {
        proof {
            lemma_mod_bound(e as int, m as int);
        }
        ((e as u128) % mm) as u64
    } else {
        let mag: u128 = ((-(e + 1)) as u128) + 1;
        let rr: u128 = mag % mm;
        proof {
            let q: int = (mag as int) / (m as int);
            vstd::arithmetic::div_mod::lemma_fundamental_div_mod(mag as int, m as int);
            lemma_mod_bound(mag as int, m as int);
            assert(e as int == (m as int) * (-q) - rr) by (nonlinear_arith)
                requires
                    mag as int == (m as int) * q + (rr as int),
                    e as int == -(mag as int),
            {
            }
            if rr == 0 {
                lemma_mod_multiples_vanish(-q, 0, m as int);
            } else {
                assert((m as int) * (-q - 1) == (m as int) * (-q) - (m as int)) by (nonlinear_arith) {
                }
                lemma_mod_multiples_vanish(-q - 1, m as int - rr as int, m as int);
                lemma_small_mod((m - rr) as nat, m as nat);
            }
        }
        if rr == 0 {
            0
        } else {
            (mm - rr) as u64
        }
    }
}

/// `base^e mod p` by repeated multiplication.
fn modpow(base: u64, e: u64, p: u64) -> (r: u64)
    requires
        p >= 2,
        base < p,
    ensures
        r as int == fpow(base as int, e as nat, p as int),
{
    proof {
        lemma_small_mod(1nat, p as nat);
        vstd::arithmetic::power::lemma_pow0(base as int);
        lemma_mod_bound(base as int, p as int);
        lemma_small_mod(base as nat, p as nat);
    }
    let mut acc: u64 = 1;
    let mut sq: u64 = base;
    let mut k: u64 = e;
    while k > 0
        invariant
            p >= 2,
            acc < p,
            sq < p,
            fmul(acc as int, pow(sq as int, k as nat), p as int) == fpow(
                base as int,
                e as nat,
                p as int,
            ),
        decreases k,
    {
        proof {
            lemma_square_and_multiply_step(acc as int, sq as int, k as nat, p as int);
            lemma_mod_bound(acc * sq, p as int);
            lemma_mod_bound(sq * sq, p as int);
            lemma_mul_upper_bound(acc as int, u64::MAX as int, sq as int, u64::MAX as int);
            lemma_mul_upper_bound(sq as int, u64::MAX as int, sq as int, u64::MAX as int);
        }
        if k % 2 == 1 {
            acc = (((acc as u128) * (sq as u128)) % (p as u128)) as u64;
        }
        sq = (((sq as u128) * (sq as u128)) % (p as u128)) as u64;
        k = k / 2;
    }
    proof {
        vstd::arithmetic::power::lemma_pow0(sq as int);
        lemma_small_mod(acc as nat, p as nat);
    }
    acc
}

/// One step of square-and-multiply: halving the exponent and squaring
/// the base — multiplying once into the accumulator when the exponent
/// is odd — keeps the running product.
proof fn lemma_square_and_multiply_step(acc: int, sq: int, k: nat, p: int)
    requires
        p >= 2,
        0 <= acc < p,
        0 <= sq < p,
        k > 0,
    ensures
        k % 2 == 1 ==> fmul(fmul(acc, sq, p), pow(fmul(sq, sq, p), (k / 2) as nat), p) == fmul(
            acc,
            pow(sq, k),
            p,
        ),
        k % 2 == 0 ==> fmul(acc, pow(fmul(sq, sq, p), (k / 2) as nat), p) == fmul(
            acc,
            pow(sq, k),
            p,
        ),
{
    let h = (k / 2) as nat;
    vstd::arithmetic::power::lemma_pow_multiplies(sq, 2nat, h);
    vstd::arithmetic::power::lemma_pow1(sq);
    vstd::arithmetic::power::lemma_pow_adds(sq, 1nat, 1nat);
    assert(pow(sq, 2nat) == sq * sq);
    assert(pow(pow(sq, 2nat), h) == pow(sq, 2 * h));
    // Reducing the squared base before exponentiation changes nothing
    // modulo p.
    vstd::arithmetic::power::lemma_pow_mod_noop(sq * sq, h, p);
    assert(pow(fmul(sq, sq, p), h) % p == pow(sq * sq, h) % p);
    if k % 2 == 1 {
        assert(k == 2 * h + 1);
        vstd::arithmetic::power::lemma_pow_adds(sq, 1nat, (2 * h) as nat);
        assert(pow(sq, k) == sq * pow(sq, 2 * h));
        // (acc*sq mod p) * (pow(sq*sq,h) mod p) == acc * (sq * pow(sq,2h)) mod p
        lemma_mul_mod_noop_left(acc * sq, pow(fmul(sq, sq, p), h), p as int);
        lemma_mul_mod_noop_right(acc * sq, pow(fmul(sq, sq, p), h), p as int);
        vstd::arithmetic::div_mod::lemma_mul_mod_noop_general(acc * sq, pow(sq * sq, h), p);
        assert(fmul(fmul(acc, sq, p), pow(fmul(sq, sq, p), h), p) == ((acc * sq) * pow(sq * sq, h))
            % p) by {
            vstd::arithmetic::div_mod::lemma_mul_mod_noop_general(
                acc * sq,
                pow(fmul(sq, sq, p), h),
                p,
            );
        }
        assert((acc * sq) * pow(sq * sq, h) == acc * pow(sq, k)) by {
            vstd::arithmetic::mul::lemma_mul_is_associative(acc, sq, pow(sq * sq, h));
            assert(sq * pow(sq * sq, h) == sq * pow(sq, 2 * h));
            vstd::arithmetic::mul::lemma_mul_is_associative(acc, sq, pow(sq, 2 * h));
        }
        lemma_mul_mod_noop_right(acc, pow(sq, k), p as int);
    } else {
        assert(k == 2 * h);
        lemma_mul_mod_noop_right(acc, pow(fmul(sq, sq, p), h), p as int);
        vstd::arithmetic::div_mod::lemma_mul_mod_noop_general(acc, pow(sq * sq, h), p);
        assert(fmul(acc, pow(fmul(sq, sq, p), h), p) == (acc * pow(sq * sq, h)) % p) by {
            vstd::arithmetic::div_mod::lemma_mul_mod_noop_general(acc, pow(fmul(sq, sq, p), h), p);
        }
        lemma_mul_mod_noop_right(acc, pow(sq, k), p as int);
    }
}

} // verus!
