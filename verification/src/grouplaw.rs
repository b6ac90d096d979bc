//! The algebra of the chord-and-tangent law on a short-Weierstrass
//! curve `y^2 = x^3 + a*x + b` over residues modulo a prime.
//!
//! The central results are the closure lemmas: the coordinates that the
//! slope formulas produce satisfy the curve equation whenever the
//! operands do. They follow from one interpolation identity over the
//! integers — a monic cubic minus the square of a line, evaluated at
//! the third root — together with Fermat inversion.

use vstd::prelude::*;

verus! {

use crate::modular::fadd;
use crate::modular::fmul;
use crate::modular::fneg;
use crate::modular::fsub;
use crate::modular::finv;
use crate::modular::in_range;
use crate::numtheory::is_prime;
use crate::numtheory::lemma_euclid;
use crate::numtheory::lemma_fermat_inverse;
use vstd::arithmetic::div_mod::lemma_add_mod_noop;
use vstd::arithmetic::div_mod::lemma_add_mod_noop_right;
use vstd::arithmetic::div_mod::lemma_mod_bound;
use vstd::arithmetic::div_mod::lemma_mod_equivalence;
use vstd::arithmetic::div_mod::lemma_mul_mod_noop_general;
use vstd::arithmetic::div_mod::lemma_mul_mod_noop_left;
use vstd::arithmetic::div_mod::lemma_mul_mod_noop_right;
use vstd::arithmetic::div_mod::lemma_small_mod;
use vstd::arithmetic::div_mod::lemma_sub_mod_noop;
use vstd::arithmetic::mul::lemma_mul_is_associative;
use vstd::arithmetic::mul::lemma_mul_is_distributive_add_other_way;
use vstd::arithmetic::mul::lemma_mul_is_distributive_sub;
use vstd::arithmetic::mul::lemma_mul_is_distributive_sub_other_way;

/// The right-hand side of the curve equation, as a residue.
pub open spec fn curve_rhs(x: int, p: int, a: int, b: int) -> int {
    fadd(fadd(fmul(fmul(x, x, p), x, p), fmul(a, x, p), p), b % p, p)
}

/// Whether `(x, y)` satisfies the curve equation modulo `p`.
pub open spec fn on_curve(x: int, y: int, p: int, a: int, b: int) -> bool {
    fmul(y, y, p) == curve_rhs(x, p, a, b)
}

/// Two integers agree modulo `p`.
pub open spec fn cong(u: int, v: int, p: int) -> bool {
    u % p == v % p
}

/// The slope of the chord through two points with distinct abscissas.
pub open spec fn chord_slope(x1: int, y1: int, x2: int, y2: int, p: int) -> int {
    fmul(fsub(y2, y1, p), finv(fsub(x2, x1, p), p), p)
}

/// The slope of the tangent at a point whose ordinate is not zero.
pub open spec fn tangent_slope(x1: int, y1: int, a: int, p: int) -> int {
    fmul(fadd(fmul(3, fmul(x1, x1, p), p), a, p), finv(fmul(2, y1, p), p), p)
}

/// The abscissa of the sum, from the slope.
pub open spec fn add_x(s: int, x1: int, x2: int, p: int) -> int {
    fsub(fsub(fmul(s, s, p), x1, p), x2, p)
}

/// The ordinate of the sum, from the slope and the new abscissa.
pub open spec fn add_y(s: int, x1: int, x3: int, y1: int, p: int) -> int {
    fsub(fmul(s, fsub(x1, x3, p), p), y1, p)
}

/// Congruence is preserved by multiplication.
pub proof fn lemma_cong_mul(u1: int, v1: int, u2: int, v2: int, p: int)
    requires
        p >= 1,
        cong(u1, v1, p),
        cong(u2, v2, p),
    ensures
        cong(u1 * u2, v1 * v2, p),
{
    lemma_mul_mod_noop_general(u1, u2, p);
    lemma_mul_mod_noop_general(v1, v2, p);
}

/// Congruence is preserved by addition.
pub proof fn lemma_cong_add(u1: int, v1: int, u2: int, v2: int, p: int)
    requires
        p >= 1,
        cong(u1, v1, p),
        cong(u2, v2, p),
    ensures
        cong(u1 + u2, v1 + v2, p),
{
    lemma_add_mod_noop(u1, u2, p);
    lemma_add_mod_noop(v1, v2, p);
}

/// Congruence is preserved by subtraction.
pub proof fn lemma_cong_sub(u1: int, v1: int, u2: int, v2: int, p: int)
    requires
        p >= 1,
        cong(u1, v1, p),
        cong(u2, v2, p),
    ensures
        cong(u1 - u2, v1 - v2, p),
{
    lemma_sub_mod_noop(u1, u2, p);
    lemma_sub_mod_noop(v1, v2, p);
}

/// The nested reductions of the curve equation collapse to one.
pub proof fn lemma_curve_rhs_flat(x: int, p: int, a: int, b: int)
    requires
        p >= 1,
    ensures
        curve_rhs(x, p, a, b) == (x * x * x + a * x + b) % p,
{
    lemma_mul_mod_noop_left(x * x, x, p);
    lemma_add_mod_noop(x * x * x, a * x, p);
    lemma_add_mod_noop(x * x * x + a * x, b, p);
}

/// The nested reductions of the abscissa formula collapse to one.
pub proof fn lemma_add_x_flat(s: int, x1: int, x2: int, p: int)
    requires
        p >= 1,
        in_range(x1, p),
        in_range(x2, p),
    ensures
        add_x(s, x1, x2, p) == (s * s - x1 - x2) % p,
{
    lemma_small_mod(x1 as nat, p as nat);
    lemma_small_mod(x2 as nat, p as nat);
    lemma_sub_mod_noop(s * s, x1, p);
    lemma_sub_mod_noop(s * s - x1, x2, p);
}

/// The nested reductions of the ordinate formula collapse to one.
pub proof fn lemma_add_y_flat(s: int, x1: int, x3: int, y1: int, p: int)
    requires
        p >= 1,
        in_range(x1, p),
        in_range(x3, p),
        in_range(y1, p),
    ensures
        add_y(s, x1, x3, y1, p) == (s * (x1 - x3) - y1) % p,
{
    lemma_small_mod(x1 as nat, p as nat);
    lemma_small_mod(x3 as nat, p as nat);
    lemma_small_mod(y1 as nat, p as nat);
    lemma_sub_mod_noop(x1, x3, p);
    lemma_mul_mod_noop_right(s, x1 - x3, p);
    lemma_sub_mod_noop(s * (x1 - x3), y1, p);
}

/// A quotient times its reduced divisor gives back its reduced
/// dividend: Fermat inversion clears the denominator.
pub proof fn lemma_slope_clears(ur: int, dr: int, p: int)
    requires
        is_prime(p),
        0 < dr < p,
    ensures
        cong(fmul(ur, finv(dr, p), p) * dr, ur, p),
{
    let iv = finv(dr, p);
    lemma_small_mod(dr as nat, p as nat);
    lemma_fermat_inverse(dr, p);
    lemma_mul_mod_noop_left(ur * iv, dr, p);
    lemma_mul_is_associative(ur, iv, dr);
    lemma_mul_mod_noop_right(ur, iv * dr, p);
    assert((iv * dr) % p == 1);
    assert((ur * 1) % p == ur % p);
}

/// The interpolation identity behind the chord case: a monic cubic
/// minus the square of a line, with two of its three roots given,
/// evaluated at the third.
proof fn lemma_chord_identity(s: int, c: int, x1: int, x2: int, a: int, b: int)
    ensures
        ({
            let x3e = s * s - x1 - x2;
            let e1 = x1 * x1 * x1 + a * x1 + b - (s * x1 + c) * (s * x1 + c);
            let e2 = x2 * x2 * x2 + a * x2 + b - (s * x2 + c) * (s * x2 + c);
            let g3 = x3e * x3e * x3e + a * x3e + b - (s * x3e + c) * (s * x3e + c);
            g3 * (x2 - x1) == e1 * (x2 - x3e) + e2 * (x3e - x1)
        }),
{
    let x3e = s * s - x1 - x2;
    let e1 = x1 * x1 * x1 + a * x1 + b - (s * x1 + c) * (s * x1 + c);
    let e2 = x2 * x2 * x2 + a * x2 + b - (s * x2 + c) * (s * x2 + c);
    let g3 = x3e * x3e * x3e + a * x3e + b - (s * x3e + c) * (s * x3e + c);
    let alpha = a - 2 * (s * c) - (x1 * x2 + x1 * x3e + x2 * x3e);
    let beta = b - c * c + x1 * x2 * x3e;
    lemma_cubic_eval(x1, s, c, x1, x2, x3e, a, b);
    lemma_cubic_eval(x2, s, c, x1, x2, x3e, a, b);
    lemma_cubic_eval(x3e, s, c, x1, x2, x3e, a, b);
    assert((x1 - x1) * (x1 - x2) * (x1 - x3e) == 0) by (nonlinear_arith) {
    }
    assert((x2 - x1) * (x2 - x2) * (x2 - x3e) == 0) by (nonlinear_arith) {
    }
    assert((x3e - x1) * (x3e - x2) * (x3e - x3e) == 0) by (nonlinear_arith) {
    }
    assert(e1 == alpha * x1 + beta);
    assert(e2 == alpha * x2 + beta);
    assert(g3 == alpha * x3e + beta);
    assert((alpha * x3e + beta) * (x2 - x1) == (alpha * x1 + beta) * (x2 - x3e) + (alpha * x2
        + beta) * (x3e - x1)) by (nonlinear_arith) {
    }
}

/// A monic cubic with the given roots, expanded into its elementary
/// symmetric coefficients.
proof fn lemma_expand_cubic(v: int, x1: int, x2: int, x3e: int)
    ensures
        (v - x1) * (v - x2) * (v - x3e) == v * v * v - (x1 + x2 + x3e) * (v * v) + (x1 * x2 + x1
            * x3e + x2 * x3e) * v - x1 * x2 * x3e,
{
    let q = v * v - x1 * v - x2 * v + x1 * x2;
    assert((v - x1) * (v - x2) == q) by (nonlinear_arith)
        requires
            q == v * v - x1 * v - x2 * v + x1 * x2,
    {
    }
    lemma_mul_is_distributive_sub(q, v, x3e);
    assert(q * v == v * v * v - x1 * (v * v) - x2 * (v * v) + (x1 * x2) * v) by (nonlinear_arith)
        requires
            q == v * v - x1 * v - x2 * v + x1 * x2,
    {
    }
    assert(q * x3e == x3e * (v * v) - (x1 * x3e) * v - (x2 * x3e) * v + x1 * x2 * x3e)
        by (nonlinear_arith)
        requires
            q == v * v - x1 * v - x2 * v + x1 * x2,
    {
    }
    lemma_mul_is_distributive_add_other_way(v * v, x1 + x2, x3e);
    lemma_mul_is_distributive_add_other_way(v * v, x1, x2);
    lemma_mul_is_distributive_add_other_way(v, x1 * x2 + x1 * x3e, x2 * x3e);
    lemma_mul_is_distributive_add_other_way(v, x1 * x2, x1 * x3e);
}

/// The square of a line, expanded.
proof fn lemma_expand_square(s: int, c: int, v: int)
    ensures
        (s * v + c) * (s * v + c) == (s * s) * (v * v) + 2 * ((s * c) * v) + c * c,
{
    assert((s * v + c) * (s * v + c) == (s * s) * (v * v) + 2 * ((s * c) * v) + c * c)
        by (nonlinear_arith) {
    }
}

/// A monic cubic minus the square of a line, written through the
/// linear interpolant determined by three root candidates whose sum is
/// the square of the slope.
proof fn lemma_cubic_eval(v: int, s: int, c: int, x1: int, x2: int, x3e: int, a: int, b: int)
    requires
        x1 + x2 + x3e == s * s,
    ensures
        v * v * v + a * v + b - (s * v + c) * (s * v + c) == (a - 2 * (s * c) - (x1 * x2 + x1 * x3e
            + x2 * x3e)) * v + (b - c * c + x1 * x2 * x3e) + (v - x1) * (v - x2) * (v - x3e),
{
    lemma_expand_cubic(v, x1, x2, x3e);
    lemma_expand_square(s, c, v);
    assert((x1 + x2 + x3e) * (v * v) == (s * s) * (v * v)) by (nonlinear_arith)
        requires
            x1 + x2 + x3e == s * s,
    {
    }
    lemma_mul_is_distributive_sub_other_way(v, a - 2 * (s * c), x1 * x2 + x1 * x3e + x2 * x3e);
    lemma_mul_is_distributive_sub_other_way(v, a, 2 * (s * c));
    lemma_mul_is_associative(2, s * c, v);
}

/// The interpolation identity behind the tangent case: the same cubic
/// with a double root, evaluated at the remaining root.
proof fn lemma_tangent_identity(s: int, c: int, x1: int, a: int, b: int)
    ensures
        ({
            let x3e = s * s - 2 * x1;
            let e1 = x1 * x1 * x1 + a * x1 + b - (s * x1 + c) * (s * x1 + c);
            let d1 = 3 * (x1 * x1) + a - 2 * (s * (s * x1 + c));
            let g3 = x3e * x3e * x3e + a * x3e + b - (s * x3e + c) * (s * x3e + c);
            g3 == e1 + d1 * (x3e - x1)
        }),
{
    let x3e = s * s - 2 * x1;
    let e1 = x1 * x1 * x1 + a * x1 + b - (s * x1 + c) * (s * x1 + c);
    let d1 = 3 * (x1 * x1) + a - 2 * (s * (s * x1 + c));
    let g3 = x3e * x3e * x3e + a * x3e + b - (s * x3e + c) * (s * x3e + c);
    let alpha = a - 2 * (s * c) - (x1 * x1 + x1 * x3e + x1 * x3e);
    let beta = b - c * c + x1 * x1 * x3e;
    lemma_cubic_eval(x1, s, c, x1, x1, x3e, a, b);
    lemma_cubic_eval(x3e, s, c, x1, x1, x3e, a, b);
    assert((x1 - x1) * (x1 - x1) * (x1 - x3e) == 0) by (nonlinear_arith) {
    }
    assert((x3e - x1) * (x3e - x1) * (x3e - x3e) == 0) by (nonlinear_arith) {
    }
    assert(e1 == alpha * x1 + beta);
    assert(g3 == alpha * x3e + beta);
    // At a double root the interpolant's slope is the derivative.
    assert(alpha == d1) by (nonlinear_arith)
        requires
            x3e == s * s - 2 * x1,
            alpha == a - 2 * (s * c) - (x1 * x1 + x1 * x3e + x1 * x3e),
            d1 == 3 * (x1 * x1) + a - 2 * (s * (s * x1 + c)),
    {
    }
    assert(alpha * x3e + beta == alpha * x1 + beta + alpha * (x3e - x1)) by (nonlinear_arith) {
    }
}

/// Once the cubic vanishes at the unreduced abscissa and the ordinate
/// is congruent to the negated line, the reduced point satisfies the
/// curve equation.
proof fn lemma_finish_closure(s: int, c: int, x3e: int, x3: int, y3: int, a: int, b: int, p: int)
    requires
        p >= 2,
        cong(x3, x3e, p),
        cong(y3, -(s * x3e + c), p),
        (x3e * x3e * x3e + a * x3e + b - (s * x3e + c) * (s * x3e + c)) % p == 0,
    ensures
        on_curve(x3, y3, p, a, b),
{
    let t = s * x3e + c;
    lemma_cong_mul(y3, -t, y3, -t, p);
    assert((-t) * (-t) == t * t) by (nonlinear_arith) {
    }
    lemma_mod_equivalence(x3e * x3e * x3e + a * x3e + b, t * t, p);
    assert((y3 * y3) % p == (x3e * x3e * x3e + a * x3e + b) % p);
    // Move the cubic from the unreduced to the reduced abscissa.
    lemma_cong_mul(x3, x3e, x3, x3e, p);
    lemma_cong_mul(x3 * x3, x3e * x3e, x3, x3e, p);
    lemma_cong_mul(a, a, x3, x3e, p);
    lemma_cong_add(x3 * x3 * x3, x3e * x3e * x3e, a * x3, a * x3e, p);
    lemma_cong_add(x3 * x3 * x3 + a * x3, x3e * x3e * x3e + a * x3e, b, b, p);
    assert((y3 * y3) % p == (x3 * x3 * x3 + a * x3 + b) % p);
    lemma_curve_rhs_flat(x3, p, a, b);
}

/// A reduced residue is congruent to what it reduces.
proof fn lemma_cong_of_reduced(u: int, p: int)
    requires
        p >= 1,
    ensures
        cong(u % p, u, p),
        in_range(u % p, p),
{
    lemma_mod_bound(u, p);
    lemma_small_mod((u % p) as nat, p as nat);
}

/// Distinct canonical abscissas have a difference that does not vanish
/// modulo `p`.
pub proof fn lemma_distinct_difference(x1: int, x2: int, p: int)
    requires
        p >= 2,
        in_range(x1, p),
        in_range(x2, p),
        x1 != x2,
    ensures
        (x2 - x1) % p != 0,
        0 < fsub(x2, x1, p) < p,
{
    lemma_mod_equivalence(x2, x1, p);
    lemma_small_mod(x1 as nat, p as nat);
    lemma_small_mod(x2 as nat, p as nat);
    lemma_mod_bound(x2 - x1, p);
}

/// Twice a nonzero canonical ordinate does not vanish modulo an odd
/// prime.
pub proof fn lemma_double_nonzero(y1: int, p: int)
    requires
        is_prime(p),
        p > 2,
        in_range(y1, p),
        y1 != 0,
    ensures
        0 < fmul(2, y1, p) < p,
{
    lemma_mod_bound(2 * y1, p);
    lemma_small_mod(2nat, p as nat);
    lemma_small_mod(y1 as nat, p as nat);
    if fmul(2, y1, p) == 0 {
        lemma_euclid(p, 2, y1);
        assert(false);
    }
}

/// Closure of the chord case: the slope formulas for two points with
/// distinct abscissas give a point of the curve, and the slope times
/// the run is congruent to the rise.
pub proof fn lemma_chord_closure(x1: int, y1: int, x2: int, y2: int, a: int, b: int, p: int)
    requires
        is_prime(p),
        in_range(x1, p),
        in_range(y1, p),
        in_range(x2, p),
        in_range(y2, p),
        on_curve(x1, y1, p, a, b),
        on_curve(x2, y2, p, a, b),
        x1 != x2,
    ensures
        ({
            let s = chord_slope(x1, y1, x2, y2, p);
            let x3 = add_x(s, x1, x2, p);
            let y3 = add_y(s, x1, x3, y1, p);
            on_curve(x3, y3, p, a, b) && cong(s * (x2 - x1), y2 - y1, p)
        }),
{
    let s = chord_slope(x1, y1, x2, y2, p);
    let dr = fsub(x2, x1, p);
    let ur = fsub(y2, y1, p);
    lemma_distinct_difference(x1, x2, p);
    lemma_slope_clears(ur, dr, p);
    lemma_cong_of_reduced(x2 - x1, p);
    lemma_cong_of_reduced(y2 - y1, p);
    lemma_cong_of_reduced(s * s - x1 - x2, p);
    // s * (x2 - x1) == rise, modulo p.
    lemma_cong_mul(s, s, x2 - x1, dr, p);
    assert(cong(s * (x2 - x1), y2 - y1, p));
    // The exact line through the first point.
    let c = y1 - s * x1;
    assert(s * x1 + c == y1);
    // The line also passes through the second point, modulo p.
    lemma_mul_is_distributive_sub(s, x2, x1);
    lemma_cong_add(s * (x2 - x1), y2 - y1, y1, y1, p);
    assert(cong(s * x2 + c, y2, p)) by {
        assert(s * x2 + c == s * (x2 - x1) + y1);
    }
    // Coordinates, unreduced and reduced.
    let x3e = s * s - x1 - x2;
    let x3 = add_x(s, x1, x2, p);
    lemma_add_x_flat(s, x1, x2, p);
    assert(cong(x3, x3e, p));
    assert(in_range(x3, p));
    let y3 = add_y(s, x1, x3, y1, p);
    lemma_add_y_flat(s, x1, x3, y1, p);
    lemma_cong_of_reduced(s * (x1 - x3) - y1, p);
    // y3 is congruent to the negated line at x3e.
    lemma_cong_sub(x1, x1, x3, x3e, p);
    lemma_cong_mul(s, s, x1 - x3, x1 - x3e, p);
    lemma_cong_sub(s * (x1 - x3), s * (x1 - x3e), y1, y1, p);
    lemma_mul_is_distributive_sub(s, x1, x3e);
    assert(s * (x1 - x3e) - y1 == -(s * x3e + c));
    assert(cong(y3, -(s * x3e + c), p));
    // The curve equations make the line residuals vanish.
    let e1 = x1 * x1 * x1 + a * x1 + b - (s * x1 + c) * (s * x1 + c);
    let e2 = x2 * x2 * x2 + a * x2 + b - (s * x2 + c) * (s * x2 + c);
    lemma_curve_rhs_flat(x1, p, a, b);
    lemma_curve_rhs_flat(x2, p, a, b);
    lemma_mod_equivalence(x1 * x1 * x1 + a * x1 + b, y1 * y1, p);
    assert(e1 % p == 0);
    lemma_cong_mul(s * x2 + c, y2, s * x2 + c, y2, p);
    lemma_mod_equivalence(x2 * x2 * x2 + a * x2 + b, y2 * y2, p);
    lemma_cong_sub(
        x2 * x2 * x2 + a * x2 + b,
        x2 * x2 * x2 + a * x2 + b,
        (s * x2 + c) * (s * x2 + c),
        y2 * y2,
        p,
    );
    assert(e2 % p == 0) by {
        assert(cong(e2, x2 * x2 * x2 + a * x2 + b - y2 * y2, p));
        lemma_mod_equivalence(x2 * x2 * x2 + a * x2 + b, y2 * y2, p);
        lemma_small_mod(0nat, p as nat);
    }
    // The interpolation identity, reduced modulo p.
    let g3 = x3e * x3e * x3e + a * x3e + b - (s * x3e + c) * (s * x3e + c);
    lemma_chord_identity(s, c, x1, x2, a, b);
    lemma_small_mod(0nat, p as nat);
    lemma_cong_mul(e1, 0, x2 - x3e, x2 - x3e, p);
    lemma_cong_mul(e2, 0, x3e - x1, x3e - x1, p);
    lemma_cong_add(e1 * (x2 - x3e), 0 * (x2 - x3e), e2 * (x3e - x1), 0 * (x3e - x1), p);
    assert((g3 * (x2 - x1)) % p == 0);
    // Cancel the nonzero run.
    assert(fmul(x2 - x1, g3, p) == 0) by {
        lemma_mul_mod_noop_general(x2 - x1, g3, p);
        lemma_mul_mod_noop_general(g3, x2 - x1, p);
    }
    lemma_euclid(p, x2 - x1, g3);
    lemma_finish_closure(s, c, x3e, x3, y3, a, b, p);
}

/// Closure of the tangent case: doubling a point whose ordinate is not
/// zero gives a point of the curve, and the slope times twice the
/// ordinate is congruent to the tangent numerator.
pub proof fn lemma_tangent_closure(x1: int, y1: int, a: int, b: int, p: int)
    requires
        is_prime(p),
        p > 2,
        in_range(x1, p),
        in_range(y1, p),
        on_curve(x1, y1, p, a, b),
        y1 != 0,
    ensures
        ({
            let s = tangent_slope(x1, y1, a, p);
            let x3 = add_x(s, x1, x1, p);
            let y3 = add_y(s, x1, x3, y1, p);
            on_curve(x3, y3, p, a, b) && cong(s * (2 * y1), 3 * (x1 * x1) + a, p)
        }),
{
    let s = tangent_slope(x1, y1, a, p);
    let dr = fmul(2, y1, p);
    let ur = fadd(fmul(3, fmul(x1, x1, p), p), a, p);
    lemma_double_nonzero(y1, p);
    lemma_slope_clears(ur, dr, p);
    // The reduced numerator is congruent to 3*x1^2 + a.
    lemma_mul_mod_noop_right(3, x1 * x1, p);
    lemma_add_mod_noop_right((3 * (x1 * x1)) % p, a, p);
    lemma_add_mod_noop(3 * (x1 * x1), a, p);
    assert(cong(ur, 3 * (x1 * x1) + a, p)) by {
        assert(ur == ((3 * (x1 * x1)) % p + a) % p);
        assert(((3 * (x1 * x1)) % p + a % p) % p == (3 * (x1 * x1) + a) % p);
        assert(((3 * (x1 * x1)) % p + a % p) % p == ((3 * (x1 * x1)) % p + a) % p);
        lemma_cong_of_reduced(3 * (x1 * x1) + a, p);
    }
    lemma_cong_of_reduced(2 * y1, p);
    lemma_cong_mul(s, s, 2 * y1, dr, p);
    assert(cong(s * (2 * y1), 3 * (x1 * x1) + a, p));
    // The exact tangent line through the point.
    let c = y1 - s * x1;
    assert(s * x1 + c == y1);
    // The derivative residual vanishes modulo p.
    let d1 = 3 * (x1 * x1) + a - 2 * (s * (s * x1 + c));
    assert(2 * (s * y1) == s * (2 * y1)) by (nonlinear_arith) {
    }
    lemma_cong_sub(3 * (x1 * x1) + a, 3 * (x1 * x1) + a, s * (2 * y1), 3 * (x1 * x1) + a, p);
    assert(d1 % p == 0) by {
        assert(d1 == 3 * (x1 * x1) + a - s * (2 * y1));
        lemma_small_mod(0nat, p as nat);
        lemma_mod_equivalence(s * (2 * y1), 3 * (x1 * x1) + a, p);
    }
    // Coordinates, unreduced and reduced.
    let x3e = s * s - 2 * x1;
    let x3 = add_x(s, x1, x1, p);
    lemma_add_x_flat(s, x1, x1, p);
    lemma_cong_of_reduced(s * s - x1 - x1, p);
    assert(cong(x3, x3e, p));
    assert(in_range(x3, p));
    let y3 = add_y(s, x1, x3, y1, p);
    lemma_add_y_flat(s, x1, x3, y1, p);
    lemma_cong_of_reduced(s * (x1 - x3) - y1, p);
    lemma_cong_sub(x1, x1, x3, x3e, p);
    lemma_cong_mul(s, s, x1 - x3, x1 - x3e, p);
    lemma_cong_sub(s * (x1 - x3), s * (x1 - x3e), y1, y1, p);
    lemma_mul_is_distributive_sub(s, x1, x3e);
    assert(s * (x1 - x3e) - y1 == -(s * x3e + c));
    assert(cong(y3, -(s * x3e + c), p));
    // The curve equation makes the line residual vanish.
    let e1 = x1 * x1 * x1 + a * x1 + b - (s * x1 + c) * (s * x1 + c);
    lemma_curve_rhs_flat(x1, p, a, b);
    lemma_mod_equivalence(x1 * x1 * x1 + a * x1 + b, y1 * y1, p);
    assert(e1 % p == 0);
    // The interpolation identity, reduced modulo p.
    let g3 = x3e * x3e * x3e + a * x3e + b - (s * x3e + c) * (s * x3e + c);
    lemma_tangent_identity(s, c, x1, a, b);
    lemma_small_mod(0nat, p as nat);
    lemma_cong_mul(d1, 0, x3e - x1, x3e - x1, p);
    lemma_cong_add(e1, 0, d1 * (x3e - x1), 0 * (x3e - x1), p);
    assert(g3 % p == 0);
    lemma_finish_closure(s, c, x3e, x3, y3, a, b, p);
}

/// The additive inverse of an ordinate still satisfies the curve
/// equation: curves are symmetric about the axis.
pub proof fn lemma_negate_on_curve(x: int, y: int, a: int, b: int, p: int)
    requires
        p >= 2,
        in_range(y, p),
        on_curve(x, y, p, a, b),
    ensures
        on_curve(x, fneg(y, p), p, a, b),
{
    lemma_cong_of_reduced(-y, p);
    lemma_cong_mul(fneg(y, p), -y, fneg(y, p), -y, p);
    assert((-y) * (-y) == y * y) by (nonlinear_arith) {
    }
}

} // verus!
