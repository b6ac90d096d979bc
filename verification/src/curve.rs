//! Curve descriptors: value-less types that name a short-Weierstrass
//! curve by supplying its constants, and the membership test.

use vstd::prelude::*;

verus! {

use crate::field::LimitedFieldElement;
use crate::field::Prime;
use crate::point::gp_model;
use crate::point::gp_wf;
use crate::point::on_model;
use crate::point::GeneralPoint;
use vstd::arithmetic::div_mod::lemma_add_mod_noop_right;
use vstd::arithmetic::div_mod::lemma_mul_mod_noop_left;

/// A type that names a curve `y^2 = x^3 + a*x + b` by its constants.
///
/// The constants are small machine words; each field interprets them
/// reduced modulo its own prime. The curve is trusted to be
/// non-singular, exactly as the primes are trusted to be prime.
pub trait EllipticCurve: Sized + Copy {
    /// The constant `a` of the curve equation.
    spec fn a_spec() -> nat;

    /// The constant `b` of the curve equation.
    spec fn b_spec() -> nat;

    /// The constant `a` as a machine word.
    fn a() -> (r: u64)
        ensures
            r as nat == Self::a_spec(),
    ;

    /// The constant `b` as a machine word.
    fn b() -> (r: u64)
        ensures
            r as nat == Self::b_spec(),
    ;

}

/// The curve `y^2 = x^3 + 7`, over whichever prime field the caller
/// chooses.
#[derive(Debug, Clone, Copy, PartialEq, Eq)]
pub struct Secp256k1;

impl EllipticCurve for Secp256k1 {
    open spec fn a_spec() -> nat {
        0
    }

    open spec fn b_spec() -> nat {
        7
    }

    fn a() -> u64 {
        0
    }

    fn b() -> u64 {
        7
    }
}

/// The curve `y^2 = x^3 + 5*x + 7`, used by the examples.
#[derive(Debug, Clone, Copy, PartialEq, Eq)]
pub struct TestEllipticCurve;

impl EllipticCurve for TestEllipticCurve {
    open spec fn a_spec() -> nat {
        5
    }

    open spec fn b_spec() -> nat {
        7
    }

    fn a() -> u64 {
        5
    }

    fn b() -> u64 {
        7
    }
}



/// Whether a point satisfies the equation of curve `C` over the field
/// named by `P`: the point at infinity always does, an affine pair
/// exactly when `y^2 = x^3 + a*x + b` in the field.
pub fn on<P: Prime, C: EllipticCurve>(point: &GeneralPoint<LimitedFieldElement<P>>) -> (r: bool)
    requires
        gp_wf(*point),
    ensures
        r == on_model(
            gp_model(*point),
            P::prime_spec() as int,
            C::a_spec() as int,
            C::b_spec() as int,
        ),
{
    match point {
        GeneralPoint::Infinite => true,
        GeneralPoint::Finite { x, y } => {
            let a_e = LimitedFieldElement::<P>::new_reduced(C::a());
            let b_e = LimitedFieldElement::<P>::new_reduced(C::b());
            let lhs = y.mul(*y);
            let rhs = x.mul(*x).mul(*x).add(a_e.mul(*x)).add(b_e);
            proof {
                let p: int = P::prime_spec() as int;
                let xv: int = x.value() as int;
                lemma_mul_mod_noop_left(C::a_spec() as int, xv, p);
                lemma_add_mod_noop_right(
                    crate::modular::fmul(crate::modular::fmul(xv, xv, p), xv, p),
                    C::a_spec() as int * xv,
                    p,
                );
            }
            lhs == rhs
        },
    }
}

} // verus!
