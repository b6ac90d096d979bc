//! Curve points: the point at infinity or an affine pair, and the
//! chord-and-tangent group addition.
//!
//! A `PointOnCurve` is tied by its type to a field (`P`) and a curve
//! (`C`); points of different curves cannot be added. Its invariant —
//! the coordinates are canonical residues that satisfy the curve
//! equation — is established by `new` and preserved by `add`, the
//! latter by the closure lemmas of `grouplaw`.

use core::marker::PhantomData;
use vstd::prelude::*;

verus! {

use crate::curve::EllipticCurve;
use crate::field::LimitedFieldElement;
use crate::field::Prime;
use crate::grouplaw::add_x;
use crate::grouplaw::add_y;
use crate::grouplaw::chord_slope;
use crate::grouplaw::cong;
use crate::grouplaw::lemma_add_x_flat;
use crate::grouplaw::lemma_add_y_flat;
use crate::grouplaw::lemma_chord_closure;
use crate::grouplaw::lemma_distinct_difference;
use crate::grouplaw::lemma_tangent_closure;
use crate::grouplaw::on_curve;
use crate::grouplaw::tangent_slope;
use crate::modular::fmul;
use crate::modular::fneg;
use crate::modular::finv;
use crate::numtheory::is_factor;
use crate::numtheory::is_prime;
use crate::numtheory::lemma_mul_cancel;
use vstd::arithmetic::div_mod::lemma_add_mod_noop_right;
use vstd::arithmetic::div_mod::lemma_mod_bound;
use vstd::arithmetic::div_mod::lemma_mod_equivalence;
use vstd::arithmetic::div_mod::lemma_mod_multiples_basic;
use vstd::arithmetic::div_mod::lemma_mul_mod_noop_left;
use vstd::arithmetic::div_mod::lemma_small_mod;
use vstd::arithmetic::mul::lemma_mul_is_commutative;
use vstd::arithmetic::mul::lemma_mul_is_distributive_sub;

/// A point of the projective line over `T`: an affine pair or the
/// point at infinity.
#[derive(Debug)]
pub enum GeneralPoint<T> {
    Finite { x: T, y: T },
    Infinite,
}

impl<T: Copy> Clone for GeneralPoint<T> {
    fn clone(&self) -> (r: Self)
        ensures
            r == *self,
    {
        *self
    }
}

impl<T: Copy> Copy for GeneralPoint<T> {

}

impl<T: Copy> GeneralPoint<T> {
    /// The affine point with the given coordinates.
    pub fn finite(x: T, y: T) -> (r: Self)
        ensures
            r == (GeneralPoint::Finite { x, y }),
    {
        GeneralPoint::Finite { x, y }
    }

    /// The abscissa, absent for the point at infinity.
    pub fn x(&self) -> (r: Option<T>)
        ensures
            match *self {
                GeneralPoint::Finite { x, .. } => r == Some(x),
                GeneralPoint::Infinite => r is None,
            },
    {
        match self {
            GeneralPoint::Finite { x, .. } => Some(*x),
            GeneralPoint::Infinite => None,
        }
    }

    /// The ordinate, absent for the point at infinity.
    pub fn y(&self) -> (r: Option<T>)
        ensures
            match *self {
                GeneralPoint::Finite { y, .. } => r == Some(y),
                GeneralPoint::Infinite => r is None,
            },
    {
        match self {
            GeneralPoint::Finite { y, .. } => Some(*y),
            GeneralPoint::Infinite => None,
        }
    }

    /// Whether the point is affine.
    pub fn is_finite(&self) -> (r: bool)
        ensures
            r == (*self is Finite),
    {
        match self {
            GeneralPoint::Finite { .. } => true,
            GeneralPoint::Infinite => false,
        }
    }
}

/// The coordinates of a point, as plain residues.
pub open spec fn gp_model<P: Prime>(g: GeneralPoint<LimitedFieldElement<P>>) -> GeneralPoint<nat> {
    match g {
        GeneralPoint::Finite { x, y } => GeneralPoint::Finite { x: x.value(), y: y.value() },
        GeneralPoint::Infinite => GeneralPoint::Infinite,
    }
}

/// Both coordinates of a point are canonical.
pub open spec fn gp_wf<P: Prime>(g: GeneralPoint<LimitedFieldElement<P>>) -> bool {
    match g {
        GeneralPoint::Finite { x, y } => x.wf() && y.wf(),
        GeneralPoint::Infinite => true,
    }
}

/// Whether a point model satisfies the curve equation: the point at
/// infinity always does.
pub open spec fn on_model(m: GeneralPoint<nat>, p: int, a: int, b: int) -> bool {
    match m {
        GeneralPoint::Finite { x, y } => on_curve(x as int, y as int, p, a, b),
        GeneralPoint::Infinite => true,
    }
}

/// The group law on point models: the case analysis of
/// chord-and-tangent addition, with the vertical cases sent to the
/// point at infinity.
pub open spec fn add_model(m1: GeneralPoint<nat>, m2: GeneralPoint<nat>, p: int, a: int)
    -> GeneralPoint<nat> {
    match (m1, m2) {
        (GeneralPoint::Infinite, _) => m2,
        (_, GeneralPoint::Infinite) => m1,
        (
            GeneralPoint::Finite { x: x1, y: y1 },
            GeneralPoint::Finite { x: x2, y: y2 },
        ) => {
            if x1 == x2 && y1 != y2 {
                GeneralPoint::Infinite
            } else if x1 == x2 && y1 == y2 {
                if y1 == 0 {
                    GeneralPoint::Infinite
                } else {
                    let s = tangent_slope(x1 as int, y1 as int, a, p);
                    let x3 = add_x(s, x1 as int, x1 as int, p);
                    let y3 = add_y(s, x1 as int, x3, y1 as int, p);
                    GeneralPoint::Finite { x: x3 as nat, y: y3 as nat }
                }
            } else {
                let s = chord_slope(x1 as int, y1 as int, x2 as int, y2 as int, p);
                let x3 = add_x(s, x1 as int, x2 as int, p);
                let y3 = add_y(s, x1 as int, x3, y1 as int, p);
                GeneralPoint::Finite { x: x3 as nat, y: y3 as nat }
            }
        },
    }
}

/// A point known to lie on curve `C` over the field named by `P`.
#[derive(Debug)]
pub struct PointOnCurve<P: Prime, C: EllipticCurve> {
    point: GeneralPoint<LimitedFieldElement<P>>,
    curve: PhantomData<C>,
}

impl<P: Prime, C: EllipticCurve> Clone for PointOnCurve<P, C> {
    fn clone(&self) -> (r: Self)
        ensures
            r == *self,
    {
        *self
    }
}

impl<P: Prime, C: EllipticCurve> Copy for PointOnCurve<P, C> {

}

impl<P: Prime, C: EllipticCurve> View for PointOnCurve<P, C> {
    type V = GeneralPoint<nat>;

    closed spec fn view(&self) -> GeneralPoint<nat> {
        gp_model(self.point)
    }
}

impl<P: Prime, C: EllipticCurve> PointOnCurve<P, C> {
    /// The invariant: canonical coordinates that satisfy the curve
    /// equation.
    pub closed spec fn wf(self) -> bool {
        gp_wf(self.point) && on_model(
            gp_model(self.point),
            P::prime_spec() as int,
            C::a_spec() as int,
            C::b_spec() as int,
        )
    }

    /// A well-formed point's model satisfies the curve equation.
    pub proof fn lemma_wf_on_model(self)
        requires
            self.wf(),
        ensures
            on_model(self@, P::prime_spec() as int, C::a_spec() as int, C::b_spec() as int),
    {
    }

    /// Accepts exactly the points of the curve.
    pub fn new(point: GeneralPoint<LimitedFieldElement<P>>) -> (r: Option<Self>)
        requires
            gp_wf(point),
        ensures
            r is Some <==> on_model(
                gp_model(point),
                P::prime_spec() as int,
                C::a_spec() as int,
                C::b_spec() as int,
            ),
            r matches Some(pt) ==> pt.wf() && pt@ == gp_model(point),
    {
        if crate::curve::on::<P, C>(&point) {
            Some(PointOnCurve { point, curve: PhantomData })
        } else {
            None
        }
    }

    /// The abscissa, absent for the point at infinity.
    pub fn x(&self) -> (r: Option<LimitedFieldElement<P>>)
        ensures
            match self@ {
                GeneralPoint::Finite { x, .. } => r matches Some(e) && e.value() == x,
                GeneralPoint::Infinite => r is None,
            },
    {
        self.point.x()
    }

    /// The ordinate, absent for the point at infinity.
    pub fn y(&self) -> (r: Option<LimitedFieldElement<P>>)
        ensures
            match self@ {
                GeneralPoint::Finite { y, .. } => r matches Some(e) && e.value() == y,
                GeneralPoint::Infinite => r is None,
            },
    {
        self.point.y()
    }

    /// Whether the point is affine.
    pub fn is_finite(&self) -> (r: bool)
        ensures
            r == (self@ is Finite),
    {
        self.point.is_finite()
    }

    /// The group addition.
    ///
    /// The library trusts the prime to be prime; here that trust is
    /// stated, together with oddness, because the tangent formula
    /// divides by `2*y` and the chord-and-tangent law belongs to odd
    /// characteristic.
    pub fn add(self, rhs: Self) -> (r: Self)
        requires
            self.wf(),
            rhs.wf(),
            is_prime(P::prime_spec() as int),
            P::prime_spec() > 2,
        ensures
            r.wf(),
            r@ == add_model(self@, rhs@, P::prime_spec() as int, C::a_spec() as int),
            on_model(r@, P::prime_spec() as int, C::a_spec() as int, C::b_spec() as int),
    {
        let ghost pg: int = P::prime_spec() as int;
        let ghost ag: int = C::a_spec() as int;
        let ghost bg: int = C::b_spec() as int;
        match (self.point, rhs.point) {
            (GeneralPoint::Infinite, q) => PointOnCurve { point: q, curve: PhantomData },
            (q, GeneralPoint::Infinite) => PointOnCurve { point: q, curve: PhantomData },
            (
                GeneralPoint::Finite { x: x1, y: y1 },
                GeneralPoint::Finite { x: x2, y: y2 },
            ) => {
                if x1 == x2 && !(y1 == y2) {
                    PointOnCurve { point: GeneralPoint::Infinite, curve: PhantomData }
                } else if x1 == x2 && y1 == y2 {
                    if y1.is_zero() {
                        PointOnCurve { point: GeneralPoint::Infinite, curve: PhantomData }
                    } else {
                        let p = P::get_prime();
                        let a_e = LimitedFieldElement::<P>::new_reduced(C::a());
                        let three = LimitedFieldElement::<P>::new_reduced(3);
                        let two = LimitedFieldElement::<P>::new_reduced(2);
                        let num = three.mul(x1.mul(x1)).add(a_e);
                        let den = two.mul(y1);
                        proof {
                            lemma_mul_mod_noop_left(3, x1.value() as int * x1.value() as int, pg);
                            lemma_mul_mod_noop_left(
                                3,
                                fmul(x1.value() as int, x1.value() as int, pg),
                                pg,
                            );
                            lemma_add_mod_noop_right(
                                fmul(3, fmul(x1.value() as int, x1.value() as int, pg), pg),
                                ag,
                                pg,
                            );
                            lemma_mul_mod_noop_left(2, y1.value() as int, pg);
                            lemma_small_mod((pg - 2) as nat, (pg - 1) as nat);
                        }
                        let s = num.mul(den.pow((p - 2) as i128));
                        let x3 = s.mul(s).sub(x1).sub(x2);
                        let y3 = s.mul(x1.sub(x3)).sub(y1);
                        proof {
                            lemma_tangent_closure(x1.value() as int, y1.value() as int, ag, bg, pg);
                        }
                        PointOnCurve {
                            point: GeneralPoint::Finite { x: x3, y: y3 },
                            curve: PhantomData,
                        }
                    }
                } else {
                    let p = P::get_prime();
                    let num = y2.sub(y1);
                    let den = x2.sub(x1);
                    proof {
                        lemma_small_mod((pg - 2) as nat, (pg - 1) as nat);
                        lemma_distinct_difference(x1.value() as int, x2.value() as int, pg);
                    }
                    let s = num.mul(den.pow((p - 2) as i128));
                    let x3 = s.mul(s).sub(x1).sub(x2);
                    let y3 = s.mul(x1.sub(x3)).sub(y1);
                    proof {
                        lemma_chord_closure(
                            x1.value() as int,
                            y1.value() as int,
                            x2.value() as int,
                            y2.value() as int,
                            ag,
                            bg,
                            pg,
                        );
                    }
                    PointOnCurve {
                        point: GeneralPoint::Finite { x: x3, y: y3 },
                        curve: PhantomData,
                    }
                }
            },
        }
    }
}

impl<P: Prime, C: EllipticCurve> PartialEq for PointOnCurve<P, C> {
    /// Points are equal exactly when their coordinates are.
    fn eq(&self, other: &Self) -> (r: bool) {
        match (&self.point, &other.point) {
            (
                GeneralPoint::Finite { x: x1, y: y1 },
                GeneralPoint::Finite { x: x2, y: y2 },
            ) => *x1 == *x2 && *y1 == *y2,
            (GeneralPoint::Infinite, GeneralPoint::Infinite) => true,
            _ => false,
        }
    }
}

impl<P: Prime, C: EllipticCurve> vstd::std_specs::cmp::PartialEqSpecImpl for PointOnCurve<P, C> {
    open spec fn obeys_eq_spec() -> bool {
        true
    }

    open spec fn eq_spec(&self, other: &Self) -> bool {
        self@ == other@
    }
}

/// The point at infinity is the identity of the group law, on either
/// side.
pub proof fn lemma_add_identity(m: GeneralPoint<nat>, p: int, a: int)
    ensures
        add_model(m, GeneralPoint::Infinite, p, a) == m,
        add_model(GeneralPoint::Infinite, m, p, a) == m,
{
}

/// An affine point and its reflection across the axis add to the point
/// at infinity: the reflection is the group inverse.
pub proof fn lemma_add_opposite(x: nat, y: nat, p: int, a: int)
    requires
        is_prime(p),
        p > 2,
        x < p,
        y < p,
    ensures
        add_model(
            GeneralPoint::Finite { x, y },
            GeneralPoint::Finite { x, y: fneg(y as int, p) as nat },
            p,
            a,
        ) == GeneralPoint::<nat>::Infinite,
{
    let yn = fneg(y as int, p);
    lemma_mod_bound(-(y as int), p);
    if y == 0 {
        lemma_small_mod(0nat, p as nat);
        assert(yn == 0);
    } else {
        // The reflection of a nonzero ordinate differs from it, else
        // the prime would be even.
        vstd::arithmetic::div_mod::lemma_mod_add_multiples_vanish(-(y as int), p);
        lemma_small_mod((p - y) as nat, p as nat);
        assert(yn == p - y);
        if y as int == yn {
            assert(p == 2 * (y as int));
            lemma_mod_multiples_basic(y as int, 2);
            lemma_mul_is_commutative(y as int, 2);
            assert(is_factor(2, p));
            assert(false);
        }
    }
}

/// The group law is commutative.
pub proof fn lemma_add_commutes(
    m1: GeneralPoint<nat>,
    m2: GeneralPoint<nat>,
    p: int,
    a: int,
    b: int,
)
    requires
        is_prime(p),
        p > 2,
        model_wf(m1, p),
        model_wf(m2, p),
        on_model(m1, p, a, b),
        on_model(m2, p, a, b),
    ensures
        add_model(m1, m2, p, a) == add_model(m2, m1, p, a),
{
    match (m1, m2) {
        (GeneralPoint::Infinite, _) => {
        },
        (_, GeneralPoint::Infinite) => {
        },
        (
            GeneralPoint::Finite { x: x1n, y: y1n },
            GeneralPoint::Finite { x: x2n, y: y2n },
        ) => {
            let x1 = x1n as int;
            let y1 = y1n as int;
            let x2 = x2n as int;
            let y2 = y2n as int;
            if x1n == x2n {
            } else {
                lemma_chord_comm(x1, y1, x2, y2, a, b, p);
            }
        },
    }
}

/// Coordinates of a model are canonical residues.
pub open spec fn model_wf(m: GeneralPoint<nat>, p: int) -> bool {
    match m {
        GeneralPoint::Finite { x, y } => x < p && y < p,
        GeneralPoint::Infinite => true,
    }
}

/// The chord case of commutativity: swapping the operands changes
/// neither the slope nor the resulting point.
proof fn lemma_chord_comm(x1: int, y1: int, x2: int, y2: int, a: int, b: int, p: int)
    requires
        is_prime(p),
        0 <= x1 < p,
        0 <= y1 < p,
        0 <= x2 < p,
        0 <= y2 < p,
        on_curve(x1, y1, p, a, b),
        on_curve(x2, y2, p, a, b),
        x1 != x2,
    ensures
        ({
            let s = chord_slope(x1, y1, x2, y2, p);
            let x3 = add_x(s, x1, x2, p);
            chord_slope(x2, y2, x1, y1, p) == s && add_x(s, x2, x1, p) == x3 && add_y(
                s,
                x2,
                x3,
                y2,
                p,
            ) == add_y(s, x1, x3, y1, p)
        }),
{
    let s12 = chord_slope(x1, y1, x2, y2, p);
    let s21 = chord_slope(x2, y2, x1, y1, p);
    lemma_chord_closure(x1, y1, x2, y2, a, b, p);
    lemma_chord_closure(x2, y2, x1, y1, a, b, p);
    lemma_distinct_difference(x1, x2, p);
    // The two slopes satisfy the same linear relation, so they agree.
    lemma_mul_is_distributive_sub(s12, x2, x1);
    lemma_mul_is_distributive_sub(s21, x1, x2);
    lemma_mul_is_distributive_sub(s21, x2, x1);
    assert(s21 * (x2 - x1) == -(s21 * (x1 - x2)));
    assert(cong(s21 * (x2 - x1), y2 - y1, p)) by {
        assert(cong(s21 * (x1 - x2), y1 - y2, p));
        crate::grouplaw::lemma_cong_mul(-1, -1, s21 * (x1 - x2), y1 - y2, p);
        assert((-1) * (s21 * (x1 - x2)) == s21 * (x2 - x1));
        assert((-1) * (y1 - y2) == y2 - y1);
    }
    assert(fmul(x2 - x1, s12, p) == fmul(x2 - x1, s21, p)) by {
        lemma_mul_is_commutative(x2 - x1, s12);
        lemma_mul_is_commutative(x2 - x1, s21);
    }
    lemma_mul_cancel(p, x2 - x1, s12, s21);
    lemma_mod_bound((y2 - y1) % p * finv((x2 - x1) % p, p), p);
    lemma_mod_bound((y1 - y2) % p * finv((x1 - x2) % p, p), p);
    lemma_small_mod(s12 as nat, p as nat);
    lemma_small_mod(s21 as nat, p as nat);
    assert(s21 == s12);
    let s = s12;
    // The abscissa formula is symmetric.
    lemma_add_x_flat(s, x1, x2, p);
    lemma_add_x_flat(s, x2, x1, p);
    let x3 = add_x(s, x1, x2, p);
    // Both ordinate formulas reduce the same integer modulo p.
    lemma_mod_bound(s * s - x1 - x2, p);
    lemma_add_y_flat(s, x1, x3, y1, p);
    lemma_add_y_flat(s, x2, x3, y2, p);
    lemma_mul_is_distributive_sub(s, x1, x3);
    lemma_mul_is_distributive_sub(s, x2, x3);
    assert(cong(s * (x1 - x3) - y1, s * (x2 - x3) - y2, p)) by {
        assert((s * (x1 - x3) - y1) - (s * (x2 - x3) - y2) == (y2 - y1) - s * (x2 - x1));
        lemma_mod_equivalence(s * (x2 - x1), y2 - y1, p);
        lemma_mod_equivalence(s * (x1 - x3) - y1, s * (x2 - x3) - y2, p);
        vstd::arithmetic::div_mod::lemma_sub_mod_noop(y2 - y1, s * (x2 - x1), p);
        assert(((y2 - y1) - s * (x2 - x1)) % p == ((y2 - y1) % p - (s * (x2 - x1)) % p) % p);
        assert((y2 - y1) % p - (s * (x2 - x1)) % p == 0);
        lemma_small_mod(0nat, p as nat);
    }
    lemma_mod_equivalence(s * (x1 - x3) - y1, s * (x2 - x3) - y2, p);
    lemma_mod_bound(s * (x1 - x3) - y1, p);
    lemma_mod_bound(s * (x2 - x3) - y2, p);
}

} // verus!
