//! The number theory behind Fermat inversion.
//!
//! Everything the field's division rests on is proved here from first
//! principles: Bezout's identity by induction over the Euclidean
//! algorithm, the existence of modular inverses for a prime modulus,
//! cancellation, and Fermat's little theorem by the classical
//! permutation-of-residues argument.

use vstd::prelude::*;

verus! {

use crate::modular::finv;
use crate::modular::fmul;
use crate::modular::fpow;
use vstd::arithmetic::div_mod::lemma_fundamental_div_mod;
use vstd::arithmetic::div_mod::lemma_mod_bound;
use vstd::arithmetic::div_mod::lemma_mod_equivalence;
use vstd::arithmetic::div_mod::lemma_mod_multiples_basic;
use vstd::arithmetic::div_mod::lemma_mod_multiples_vanish;
use vstd::arithmetic::div_mod::lemma_mod_self_0;
use vstd::arithmetic::div_mod::lemma_mod_sub_multiples_vanish;
use vstd::arithmetic::div_mod::lemma_mul_mod_noop_general;
use vstd::arithmetic::div_mod::lemma_mul_mod_noop_left;
use vstd::arithmetic::div_mod::lemma_mul_mod_noop_right;
use vstd::arithmetic::div_mod::lemma_small_mod;
use vstd::arithmetic::mul::lemma_mul_is_associative;
use vstd::arithmetic::power::lemma_pow0;
use vstd::arithmetic::power::lemma_pow1;
use vstd::arithmetic::power::lemma_pow_adds;
use vstd::arithmetic::power::pow;

/// `d` divides `p` evenly.
pub open spec fn is_factor(d: int, p: int) -> bool {
    p % d == 0
}

/// `p` is prime: at least two, with no factor strictly between one and
/// itself.
pub open spec fn is_prime(p: int) -> bool {
    p >= 2 && forall|d: int| 2 <= d < p ==> !(#[trigger] is_factor(d, p))
}

/// The greatest common divisor, by the Euclidean algorithm.
pub open spec fn gcd(a: nat, b: nat) -> nat
    decreases b,
{
    if b == 0 {
        a
    } else {
        gcd(b, a % b)
    }
}

/// An integer combination of `a` and `b`.
pub open spec fn linear_combo(a: nat, b: nat, x: int, y: int) -> int {
    a * x + b * y
}

/// The gcd divides both of its arguments.
pub proof fn lemma_gcd_divides(a: nat, b: nat)
    requires
        a >= 1,
    ensures
        gcd(a, b) >= 1,
        a % gcd(a, b) == 0,
        b % gcd(a, b) == 0,
    decreases b,
{
    if b == 0 {
        lemma_mod_self_0(a as int);
        lemma_small_mod(0nat, a);
    } else {
        lemma_gcd_divides(b, a % b);
        let g = gcd(b, a % b);
        lemma_fundamental_div_mod(a as int, b as int);
        lemma_fundamental_div_mod(b as int, g as int);
        lemma_fundamental_div_mod((a % b) as int, g as int);
        let q: int = a as int / b as int;
        let k1: int = b as int / g as int;
        let k2: int = (a % b) as int / g as int;
        assert(a as int == (g as int) * (k1 * q + k2)) by (nonlinear_arith)
            requires
                a as int == (b as int) * q + ((a % b) as int),
                b as int == (g as int) * k1,
                (a % b) as int == (g as int) * k2,
        {
        }
        lemma_mod_multiples_basic(k1 * q + k2, g as int);
    }
}

/// Bezout's identity: the gcd is an integer combination.
pub proof fn lemma_bezout(a: nat, b: nat)
    ensures
        exists|x: int, y: int| #[trigger] linear_combo(a, b, x, y) == gcd(a, b),
    decreases b,
{
    if b == 0 {
        assert(linear_combo(a, b, 1, 0) == gcd(a, b));
    } else {
        lemma_bezout(b, a % b);
        let g = gcd(b, a % b);
        let (x0, y0) = choose|x0: int, y0: int| #[trigger] linear_combo(b, a % b, x0, y0) == g;
        lemma_fundamental_div_mod(a as int, b as int);
        let q: int = a as int / b as int;
        assert(linear_combo(a, b, y0, x0 - q * y0) == g) by (nonlinear_arith)
            requires
                (a % b) as int == a as int - (b as int) * q,
                (b as int) * x0 + ((a % b) as int) * y0 == g,
                linear_combo(a, b, y0, x0 - q * y0) == (a as int) * y0 + (b as int) * (x0 - q * y0),
        {
        }
    }
}

/// For a prime modulus, every residue other than zero has a
/// multiplicative inverse.
pub proof fn lemma_mod_inverse_exists(a: int, p: int)
    requires
        is_prime(p),
        a % p != 0,
    ensures
        exists|x: int| 0 <= x < p && #[trigger] fmul(a, x, p) == 1,
{
    lemma_mod_bound(a, p);
    let a0: nat = (a % p) as nat;
    lemma_small_mod(a0, p as nat);
    lemma_gcd_divides(a0, p as nat);
    let g = gcd(a0, p as nat);
    // The gcd divides the prime, so it is 1 or p; it also divides a0 < p.
    if g >= 2 {
        if g < p {
            assert(is_factor(g as int, p));
            assert(false);
        } else {
            lemma_fundamental_div_mod(a0 as int, g as int);
            let k: int = a0 as int / g as int;
            assert(a0 as int == (g as int) * k);
            assert(false) by (nonlinear_arith)
                requires
                    a0 as int == (g as int) * k,
                    0 < a0 < g,
            {
            }
        }
    }
    lemma_bezout(a0, p as nat);
    let (x0, y0) = choose|x0: int, y0: int|
        #[trigger] linear_combo(a0, p as nat, x0, y0) == gcd(a0, p as nat);
    // a0 * x0 == 1 - p * y0, so modulo p it is 1.
    lemma_mod_multiples_vanish(-y0, 1, p);
    assert((a0 as int) * x0 == p * (-y0) + 1) by (nonlinear_arith)
        requires
            (a0 as int) * x0 + p * y0 == 1,
    {
    }
    lemma_small_mod(1nat, p as nat);
    assert(((a0 as int) * x0) % p == 1);
    // Move to the canonical witness x0 % p, and from a0 back to a.
    let x1: int = x0 % p;
    lemma_mod_bound(x0, p);
    lemma_mul_mod_noop_right(a0 as int, x0, p);
    lemma_mul_mod_noop_right(a0 as int, x1, p);
    assert(((a0 as int) * x1) % p == 1);
    lemma_mul_mod_noop_left(a, x1, p);
    lemma_mul_mod_noop_left(a0 as int, x1, p);
    assert(fmul(a, x1, p) == 1);
}

/// Multiplication by a residue that is nonzero modulo a prime can be
/// cancelled.
pub proof fn lemma_mul_cancel(p: int, a: int, b: int, c: int)
    requires
        is_prime(p),
        a % p != 0,
        fmul(a, b, p) == fmul(a, c, p),
    ensures
        b % p == c % p,
{
    lemma_mod_inverse_exists(a, p);
    let x = choose|x: int| 0 <= x < p && #[trigger] fmul(a, x, p) == 1;
    lemma_cancel_side(p, a, x, b);
    lemma_cancel_side(p, a, x, c);
}

/// One direction of cancellation: multiplying by the inverse recovers
/// the residue.
proof fn lemma_cancel_side(p: int, a: int, x: int, b: int)
    requires
        p >= 2,
        fmul(a, x, p) == 1,
    ensures
        (x * fmul(a, b, p)) % p == b % p,
{
    lemma_mul_mod_noop_right(x, a * b, p);
    lemma_mul_is_associative(x, a, b);
    lemma_mul_mod_noop_left(x * a, b, p);
    assert((x * a) % p == 1);
    assert((x * fmul(a, b, p)) % p == (((x * a) % p) * b) % p);
    assert((1 * b) % p == b % p);
}

/// Euclid's lemma in residue form: a product is zero modulo a prime
/// only if one of its factors is.
pub proof fn lemma_euclid(p: int, a: int, b: int)
    requires
        is_prime(p),
        fmul(a, b, p) == 0,
        a % p != 0,
    ensures
        b % p == 0,
{
    lemma_small_mod(0nat, p as nat);
    assert(fmul(a, 0, p) == 0);
    lemma_mul_cancel(p, a, b, 0);
}

/// The factorial.
pub open spec fn factorial(n: nat) -> nat
    decreases n,
{
    if n == 0 {
        1
    } else {
        n * factorial((n - 1) as nat)
    }
}

/// No factorial of a number below a prime is divisible by the prime.
proof fn lemma_factorial_nonzero(n: nat, p: int)
    requires
        is_prime(p),
        n < p,
    ensures
        (factorial(n) as int) % p != 0,
    decreases n,
{
    if n == 0 {
        lemma_small_mod(1nat, p as nat);
    } else {
        lemma_factorial_nonzero((n - 1) as nat, p);
        lemma_small_mod(n, p as nat);
        if (factorial(n) as int) % p == 0 {
            assert(fmul(n as int, factorial((n - 1) as nat) as int, p) == 0);
            lemma_euclid(p, n as int, factorial((n - 1) as nat) as int);
            assert(false);
        }
    }
}

/// Product of the entries of a sequence.
pub open spec fn seq_prod(s: Seq<int>) -> int
    decreases s.len(),
{
    if s.len() == 0 {
        1
    } else {
        seq_prod(s.drop_last()) * s.last()
    }
}

/// Removing one entry splits the product.
proof fn lemma_seq_prod_remove(s: Seq<int>, i: int)
    requires
        0 <= i < s.len(),
    ensures
        seq_prod(s) == seq_prod(s.remove(i)) * s[i],
    decreases s.len(),
{
    if i == s.len() - 1 {
        assert(s.remove(i) =~= s.drop_last());
    } else {
        assert(s.remove(i).drop_last() =~= s.drop_last().remove(i));
        lemma_seq_prod_remove(s.drop_last(), i);
        assert(s.remove(i).last() == s.last());
        assert(seq_prod(s.remove(i)) == seq_prod(s.drop_last().remove(i)) * s.last());
        assert(seq_prod(s.drop_last().remove(i)) * s[i] * s.last() == seq_prod(
            s.drop_last().remove(i),
        ) * s.last() * s[i]) by (nonlinear_arith) {
        }
    }
}

/// Sequences with the same multiset of entries have the same product.
proof fn lemma_seq_prod_permuted(s1: Seq<int>, s2: Seq<int>)
    requires
        s1.to_multiset() == s2.to_multiset(),
    ensures
        seq_prod(s1) == seq_prod(s2),
    decreases s1.len(),
{
    broadcast use vstd::seq_lib::group_to_multiset_ensures;
    broadcast use vstd::multiset::group_multiset_axioms;

    if s1.len() == 0 {
        assert(s1.to_multiset().len() == s1.len());
        assert(s2.to_multiset().len() == s2.len());
        assert(s2.len() == 0);
    } else {
        let x = s1.last();
        assert(s1[s1.len() - 1] == x);
        assert(s1.contains(x));
        assert(s2.to_multiset().count(x) > 0);
        assert(s2.contains(x));
        let j = choose|j: int| 0 <= j < s2.len() && s2[j] == x;
        lemma_seq_prod_remove(s2, j);
        lemma_seq_prod_remove(s1, s1.len() - 1);
        assert(s1.remove(s1.len() - 1) =~= s1.drop_last());
        assert(s1.remove(s1.len() - 1).to_multiset() =~= s1.to_multiset().remove(x));
        assert(s2.remove(j).to_multiset() =~= s2.to_multiset().remove(x));
        lemma_seq_prod_permuted(s1.drop_last(), s2.remove(j));
    }
}

/// The residues of the first `n` positive multiples of `a`.
spec fn residue_seq(a: int, n: nat, p: int) -> Seq<int> {
    Seq::new(n, |i: int| fmul(a, i + 1, p))
}

/// The integers `1` through `n`.
spec fn id_seq(n: nat) -> Seq<int> {
    Seq::new(n, |i: int| i + 1)
}

/// The product of `1` through `n` is the factorial.
proof fn lemma_id_seq_prod(n: nat)
    ensures
        seq_prod(id_seq(n)) == factorial(n),
    decreases n,
{
    if n == 0 {
    } else {
        assert(id_seq(n).drop_last() =~= id_seq((n - 1) as nat));
        lemma_id_seq_prod((n - 1) as nat);
        assert(id_seq(n).last() == n);
        assert(factorial((n - 1) as nat) as int * (n as int) == factorial(n) as int)
            by (nonlinear_arith)
            requires
                factorial(n) == n * factorial((n - 1) as nat),
        {
        }
    }
}

/// The product of the residues of the multiples of `a` is `a^n * n!`,
/// modulo `p`.
proof fn lemma_residue_seq_prod(a: int, n: nat, p: int)
    requires
        p >= 2,
    ensures
        seq_prod(residue_seq(a, n, p)) % p == (pow(a, n) * factorial(n)) % p,
    decreases n,
{
    if n == 0 {
        lemma_pow0(a);
        lemma_small_mod(1nat, p as nat);
    } else {
        let m = (n - 1) as nat;
        assert(residue_seq(a, n, p).drop_last() =~= residue_seq(a, m, p));
        lemma_residue_seq_prod(a, m, p);
        let body = seq_prod(residue_seq(a, m, p));
        assert(residue_seq(a, n, p).last() == fmul(a, n as int, p));
        assert(seq_prod(residue_seq(a, n, p)) == body * fmul(a, n as int, p));
        // Undo the inner reduction, reduce the accumulated product, and
        // regroup the factors.
        lemma_mul_mod_noop_general(body, a * n, p);
        assert((body * fmul(a, n as int, p)) % p == ((body % p) * ((a * n) % p)) % p);
        lemma_mul_mod_noop_general(pow(a, m) * factorial(m), a * n, p);
        assert((body * fmul(a, n as int, p)) % p == ((pow(a, m) * factorial(m)) * (a * n)) % p);
        lemma_pow_adds(a, m, 1nat);
        lemma_pow1(a);
        assert((pow(a, m) * factorial(m)) * (a * n) == pow(a, n) * factorial(n))
            by (nonlinear_arith)
            requires
                pow(a, n) == pow(a, m) * a,
                factorial(n) == n * factorial(m),
        {
        }
    }
}

/// Multiplying by the inverse of `a` undoes multiplying by `a`.
proof fn lemma_inv_roundtrip(a: int, b: int, i: int, p: int)
    requires
        p >= 2,
        fmul(a, b, p) == 1,
        0 <= i < p,
    ensures
        fmul(b, fmul(a, i, p), p) == i,
        fmul(a, fmul(b, i, p), p) == i,
{
    lemma_small_mod(i as nat, p as nat);
    lemma_roundtrip_side(a, b, i, p);
    lemma_roundtrip_side(b, a, i, p);
}

/// One direction of the round trip.
proof fn lemma_roundtrip_side(a: int, b: int, i: int, p: int)
    requires
        p >= 2,
        (a * b) % p == 1,
        0 <= i < p,
    ensures
        fmul(b, fmul(a, i, p), p) == i,
{
    lemma_mul_mod_noop_right(b, a * i, p);
    lemma_mul_is_associative(b, a, i);
    lemma_mul_mod_noop_left(b * a, i, p);
    assert((b * a) % p == 1);
    lemma_small_mod(i as nat, p as nat);
    assert(fmul(b, fmul(a, i, p), p) == (1 * i) % p);
}

/// A value in no entry of a sequence has count zero.
proof fn lemma_count_absent(s: Seq<int>, v: int)
    requires
        forall|k: int| 0 <= k < s.len() ==> s[k] != v,
    ensures
        s.to_multiset().count(v) == 0,
{
    broadcast use vstd::seq_lib::group_to_multiset_ensures;

    if s.to_multiset().count(v) > 0 {
        assert(s.contains(v));
        let k = choose|k: int| 0 <= k < s.len() && s[k] == v;
        assert(false);
    }
}

/// A value in exactly one entry of a sequence has count one.
proof fn lemma_count_unique(s: Seq<int>, v: int, j: int)
    requires
        0 <= j < s.len(),
        s[j] == v,
        forall|k: int| 0 <= k < s.len() && s[k] == v ==> k == j,
    ensures
        s.to_multiset().count(v) == 1,
{
    broadcast use vstd::seq_lib::group_to_multiset_ensures;
    broadcast use vstd::multiset::group_multiset_axioms;

    let r = s.remove(j);
    assert(forall|k: int| 0 <= k < r.len() ==> r[k] != v);
    lemma_count_absent(r, v);
    assert(r.to_multiset() =~= s.to_multiset().remove(v));
    assert(s[j] == v);
    assert(s.contains(v));
    assert(s.to_multiset().count(v) > 0);
}

/// Multiplication by an invertible residue permutes `1 .. p-1`: the
/// residue sequence and the identity sequence agree as multisets.
proof fn lemma_residue_seq_permutes(a: int, b: int, p: int, n: nat)
    requires
        p >= 2,
        n == p - 1,
        fmul(a, b, p) == 1,
    ensures
        residue_seq(a, n, p).to_multiset() == id_seq(n).to_multiset(),
{
    broadcast use vstd::multiset::group_multiset_axioms;

    let s = residue_seq(a, n, p);
    let t = id_seq(n);
    assert forall|v: int| s.to_multiset().count(v) == t.to_multiset().count(v) by {
        if 1 <= v <= n {
            lemma_inv_roundtrip(a, b, v, p);
            let w = fmul(b, v, p);
            // w is nonzero: a * 0 reduces to 0, not to v.
            lemma_mod_bound(b * v, p);
            if w == 0 {
                lemma_small_mod(0nat, p as nat);
                assert(fmul(a, 0, p) == 0);
                assert(false);
            }
            assert(s[w - 1] == fmul(a, w, p));
            assert(fmul(a, w, p) == v);
            assert forall|k: int| 0 <= k < s.len() && s[k] == v implies k == w - 1 by {
                lemma_inv_roundtrip(a, b, k + 1, p);
                assert(fmul(b, fmul(a, k + 1, p), p) == k + 1);
            }
            lemma_count_unique(s, v, w - 1);
            assert(t[v - 1] == v);
            assert(forall|k: int| 0 <= k < t.len() && t[k] == v ==> k == v - 1);
            lemma_count_unique(t, v, v - 1);
        } else {
            assert forall|k: int| 0 <= k < s.len() implies s[k] != v by {
                lemma_mod_bound(a * (k + 1), p);
                if s[k] == 0 {
                    lemma_inv_roundtrip(a, b, k + 1, p);
                    lemma_small_mod(0nat, p as nat);
                    assert(fmul(b, 0, p) == 0);
                    assert(false);
                }
            }
            lemma_count_absent(s, v);
            assert(forall|k: int| 0 <= k < t.len() ==> t[k] != v);
            lemma_count_absent(t, v);
        }
    }
    assert(s.to_multiset() =~= t.to_multiset());
}

/// Fermat's little theorem: modulo a prime, a residue other than zero
/// raised to `p - 1` is one.
pub proof fn lemma_fermat(a: int, p: int)
    requires
        is_prime(p),
        a % p != 0,
    ensures
        fpow(a, (p - 1) as nat, p) == 1,
{
    let n = (p - 1) as nat;
    lemma_mod_bound(a, p);
    let a0: int = a % p;
    lemma_small_mod(a0 as nat, p as nat);
    lemma_mod_inverse_exists(a0, p);
    let b = choose|x: int| 0 <= x < p && #[trigger] fmul(a0, x, p) == 1;
    lemma_residue_seq_permutes(a0, b, p, n);
    lemma_seq_prod_permuted(residue_seq(a0, n, p), id_seq(n));
    lemma_id_seq_prod(n);
    lemma_residue_seq_prod(a0, n, p);
    assert((pow(a0, n) * factorial(n)) % p == factorial(n) as int % p);
    lemma_factorial_nonzero(n, p);
    // Cancel the factorial on both sides.
    lemma_small_mod(1nat, p as nat);
    assert(fmul(factorial(n) as int, pow(a0, n), p) == fmul(factorial(n) as int, 1, p)) by {
        assert(factorial(n) as int * pow(a0, n) == pow(a0, n) * factorial(n)) by (nonlinear_arith) {
        }
        assert(factorial(n) as int * 1 == factorial(n) as int);
    }
    lemma_mul_cancel(p, factorial(n) as int, pow(a0, n), 1);
    assert(pow(a0, n) % p == 1);
    // The claim for the representative gives the claim for `a`.
    vstd::arithmetic::power::lemma_pow_mod_noop(a, n, p);
    assert(pow(a0, n) % p == pow(a, n) % p);
}

/// Fermat inversion: `a * a^(p-2)` is one modulo a prime, for `a` not
/// divisible by the prime. This is what makes the field's division by
/// a nonzero element correct.
pub proof fn lemma_fermat_inverse(a: int, p: int)
    requires
        is_prime(p),
        a % p != 0,
    ensures
        fmul(a, finv(a, p), p) == 1,
{
    lemma_fermat(a, p);
    lemma_pow_adds(a, 1nat, (p - 2) as nat);
    lemma_pow1(a);
    assert(pow(a, (p - 1) as nat) == a * pow(a, (p - 2) as nat));
    lemma_mul_mod_noop_right(a, pow(a, (p - 2) as nat), p);
    assert(fmul(a, finv(a, p), p) == (a * pow(a, (p - 2) as nat)) % p);
}

/// Exponents of a nonzero residue are well defined modulo `p - 1`:
/// reducing the exponent does not change the power.
pub proof fn lemma_pow_reduction_sound(a: int, e: nat, p: int)
    requires
        is_prime(p),
        a % p != 0,
    ensures
        fpow(a, e, p) == fpow(a, e % ((p - 1) as nat), p),
    decreases e,
{
    let n = (p - 1) as nat;
    if e < n {
        lemma_small_mod(e, n);
    } else {
        let e0 = (e - n) as nat;
        lemma_pow_adds(a, e0, n);
        assert(pow(a, e) == pow(a, e0) * pow(a, n));
        lemma_mul_mod_noop_general(pow(a, e0), pow(a, n), p);
        lemma_fermat(a, p);
        assert(pow(a, e) % p == ((pow(a, e0) % p) * 1) % p);
        lemma_mod_bound(pow(a, e0), p);
        lemma_small_mod((pow(a, e0) % p) as nat, p as nat);
        lemma_pow_reduction_sound(a, e0, p);
        lemma_mod_sub_multiples_vanish(e as int, n as int);
        assert(e0 as int % n as int == e as int % n as int);
    }
}

/// Two signed exponents that agree modulo `p - 1` give the same power
/// after Euclidean reduction; in particular a negative exponent means
/// what its non-negative representative means.
pub proof fn lemma_signed_exponents_agree(a: int, e1: int, e2: int, p: int)
    requires
        p >= 2,
        (e1 - e2) % (p - 1) == 0,
    ensures
        fpow(a, (e1 % (p - 1)) as nat, p) == fpow(a, (e2 % (p - 1)) as nat, p),
{
    lemma_mod_equivalence(e1, e2, p - 1);
}

} // verus!
