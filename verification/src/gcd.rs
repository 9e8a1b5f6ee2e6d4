//! The Euclidean greatest-common-divisor primitive and its theory.
//!
//! Every arithmetic operation of the fraction engine reduces residual pairs
//! with [`euclid`].  The lemmas here give the facts those proofs need: the
//! divisor it returns divides both inputs, any common divisor divides it, it
//! is symmetric, it scales with common factors, and dividing both inputs by
//! it leaves a coprime pair.

use vstd::arithmetic::div_mod::{lemma_fundamental_div_mod, lemma_fundamental_div_mod_converse_mod};
use vstd::prelude::*;

verus! {

/// True when `d` divides `x` exactly.
pub open spec fn divides(d: int, x: int) -> bool {
    exists|k: int| x == #[trigger] (k * d)
}

/// Greatest common divisor by the Euclidean recursion, with `gcd(a, 0) == a`.
pub open spec fn gcd(a: nat, b: nat) -> nat
    decreases b,
{
    if b == 0 {
        a
    } else {
        gcd(b, a % b)
    }
}

/// For a positive divisor, dividing exactly and having a zero remainder agree.
pub proof fn lemma_divides_mod(d: nat, x: nat)
    requires
        d > 0,
    ensures
        divides(d as int, x as int) <==> x % d == 0,
{
    lemma_fundamental_div_mod(x as int, d as int);
    if x % d == 0 {
        assert(x as int == (x as int / d as int) * (d as int)) by (nonlinear_arith)
            requires
                x as int == (d as int) * (x as int / d as int) + (x % d) as int,
                x % d == 0,
        ;
    }
    if divides(d as int, x as int) {
        let k: int = choose|k: int| x as int == #[trigger] (k * d);
        lemma_fundamental_div_mod_converse_mod(x as int, d as int, k, 0);
    }
}

/// The gcd divides both of its arguments.
pub proof fn lemma_gcd_divides(a: nat, b: nat)
    ensures
        divides(gcd(a, b) as int, a as int),
        divides(gcd(a, b) as int, b as int),
    decreases b,
{
    if b == 0 {
        assert(a as int == 1 * (gcd(a, b) as int));
        assert(b as int == 0 * (gcd(a, b) as int));
    } else {
        lemma_gcd_divides(b, a % b);
        let g: int = gcd(b, a % b) as int;
        let q: int = a as int / b as int;
        let k1: int = choose|k: int| b as int == #[trigger] (k * g);
        let k2: int = choose|k: int| (a % b) as int == #[trigger] (k * g);
        lemma_fundamental_div_mod(a as int, b as int);
        assert(a as int == (q * k1 + k2) * g) by (nonlinear_arith)
            requires
                a as int == (b as int) * q + (a % b) as int,
                b as int == k1 * g,
                (a % b) as int == k2 * g,
        ;
    }
}

/// The gcd is zero exactly when both arguments are zero.
pub proof fn lemma_gcd_pos(a: nat, b: nat)
    ensures
        gcd(a, b) == 0 <==> (a == 0 && b == 0),
    decreases b,
{
    if b != 0 {
        lemma_gcd_pos(b, a % b);
    }
}

/// Any common divisor of the arguments divides the gcd.
pub proof fn lemma_gcd_greatest(a: nat, b: nat, d: int)
    requires
        divides(d, a as int),
        divides(d, b as int),
    ensures
        divides(d, gcd(a, b) as int),
    decreases b,
{
    if b != 0 {
        let q: int = a as int / b as int;
        let k1: int = choose|k: int| a as int == #[trigger] (k * d);
        let k2: int = choose|k: int| b as int == #[trigger] (k * d);
        lemma_fundamental_div_mod(a as int, b as int);
        assert((a % b) as int == (k1 - q * k2) * d) by (nonlinear_arith)
            requires
                a as int == (b as int) * q + (a % b) as int,
                a as int == k1 * d,
                b as int == k2 * d,
        ;
        lemma_gcd_greatest(b, a % b, d);
    }
}

/// A positive divisor of a positive number is no larger than it.
pub proof fn lemma_divides_le(d: int, x: int)
    requires
        divides(d, x),
        d > 0,
        x > 0,
    ensures
        d <= x,
{
    let k: int = choose|k: int| x == #[trigger] (k * d);
    assert(d <= x) by (nonlinear_arith)
        requires
            x == k * d,
            d > 0,
            x > 0,
    ;
}

/// The gcd does not depend on the order of its arguments.
pub proof fn lemma_gcd_comm(a: nat, b: nat)
    ensures
        gcd(a, b) == gcd(b, a),
{
    lemma_gcd_divides(a, b);
    lemma_gcd_divides(b, a);
    lemma_gcd_greatest(b, a, gcd(a, b) as int);
    lemma_gcd_greatest(a, b, gcd(b, a) as int);
    lemma_gcd_pos(a, b);
    lemma_gcd_pos(b, a);
    if a != 0 || b != 0 {
        lemma_divides_le(gcd(a, b) as int, gcd(b, a) as int);
        lemma_divides_le(gcd(b, a) as int, gcd(a, b) as int);
    }
}

/// An exact divisor splits its multiple into quotient times divisor.
pub proof fn lemma_div_exact(x: nat, d: nat)
    requires
        d > 0,
        divides(d as int, x as int),
    ensures
        x % d == 0,
        x == (x / d) * d,
        x > 0 ==> x / d > 0,
{
    lemma_divides_mod(d, x);
    lemma_fundamental_div_mod(x as int, d as int);
    assert(x as int == (x as int / d as int) * (d as int)) by (nonlinear_arith)
        requires
            x as int == (d as int) * (x as int / d as int) + (x % d) as int,
            x % d == 0,
    ;
}

/// The gcd of a positive number with anything lies between one and that number.
pub proof fn lemma_gcd_le(a: nat, b: nat)
    requires
        a > 0,
    ensures
        0 < gcd(a, b) <= a,
{
    lemma_gcd_divides(a, b);
    lemma_gcd_pos(a, b);
    lemma_divides_le(gcd(a, b) as int, a as int);
}

/// A common factor moves in and out of the gcd.
pub proof fn lemma_gcd_scale(k: nat, a: nat, b: nat)
    requires
        k > 0,
    ensures
        gcd(k * a, k * b) == k * gcd(a, b),
    decreases b,
{
    if b == 0 {
        assert(k * b == 0);
    } else {
        lemma_fundamental_div_mod(a as int, b as int);
        let q: int = a as int / b as int;
        let r: int = (a % b) as int;
        assert((k * a) as int == q * ((k * b) as int) + (k as int) * r) by (nonlinear_arith)
            requires
                a as int == (b as int) * q + r,
        ;
        assert(k * b > 0) by (nonlinear_arith)
            requires
                k > 0,
                b > 0,
        ;
        assert(0 <= (k as int) * r < (k * b) as int) by (nonlinear_arith)
            requires
                k > 0,
                0 <= r < b as int,
        ;
        lemma_fundamental_div_mod_converse_mod(
            (k * a) as int,
            (k * b) as int,
            q,
            (k as int) * r,
        );
        assert((k * a) % (k * b) == k * (a % b));
        lemma_gcd_scale(k, b, a % b);
    }
}

/// Dividing both inputs by their gcd leaves a coprime pair.
pub proof fn lemma_gcd_reduce_coprime(a: nat, b: nat)
    requires
        a > 0 || b > 0,
    ensures
        gcd(a / gcd(a, b), b / gcd(a, b)) == 1,
{
    let g: nat = gcd(a, b);
    lemma_gcd_pos(a, b);
    lemma_gcd_divides(a, b);
    lemma_div_exact(a, g);
    lemma_div_exact(b, g);
    let a1: nat = a / g;
    let b1: nat = b / g;
    let g2: nat = gcd(a1, b1);
    lemma_gcd_divides(a1, b1);
    lemma_gcd_pos(a1, b1);
    let k1: int = choose|k: int| a1 as int == #[trigger] (k * (g2 as int));
    let k2: int = choose|k: int| b1 as int == #[trigger] (k * (g2 as int));
    assert(a as int == k1 * ((g * g2) as int)) by (nonlinear_arith)
        requires
            a as int == (a1 as int) * (g as int),
            a1 as int == k1 * (g2 as int),
    ;
    assert(b as int == k2 * ((g * g2) as int)) by (nonlinear_arith)
        requires
            b as int == (b1 as int) * (g as int),
            b1 as int == k2 * (g2 as int),
    ;
    lemma_gcd_greatest(a, b, (g * g2) as int);
    assert(g2 > 0 && (g * g2) as int > 0) by (nonlinear_arith)
        requires
            g > 0,
            g2 > 0,
    ;
    lemma_divides_le((g * g2) as int, g as int);
    assert(g2 == 1) by (nonlinear_arith)
        requires
            (g * g2) as int <= g as int,
            g > 0,
            g2 > 0,
    ;
}

/// Removing a common factor from a pair before reducing it changes
/// nothing: the reduced pair is the same either way.
pub proof fn lemma_red_cancel(nn: nat, dd: nat, k: nat)
    requires
        k > 0,
        dd > 0,
        divides(k as int, nn as int),
        divides(k as int, dd as int),
    ensures
        (nn / k) / gcd(nn / k, dd / k) == nn / gcd(nn, dd),
        (dd / k) / gcd(nn / k, dd / k) == dd / gcd(nn, dd),
        gcd(nn, dd) == k * gcd(nn / k, dd / k),
{
    let n1: nat = nn / k;
    let d1: nat = dd / k;
    lemma_div_exact(nn, k);
    lemma_div_exact(dd, k);
    assert(k * n1 == nn && k * d1 == dd) by (nonlinear_arith)
        requires
            nn == n1 * k,
            dd == d1 * k,
    ;
    lemma_gcd_scale(k, n1, d1);
    let g1: nat = gcd(n1, d1);
    lemma_gcd_pos(n1, d1);
    assert((k * g1) as int == (k as int) * (g1 as int));
    vstd::arithmetic::div_mod::lemma_div_denominator(nn as int, k as int, g1 as int);
    vstd::arithmetic::div_mod::lemma_div_denominator(dd as int, k as int, g1 as int);
}

/// Euclid's loop on widened magnitudes, as every normalization step runs it.
pub fn euclid(a: u128, b: u128) -> (g: u128)
    ensures
        g == gcd(a as nat, b as nat),
{
    let mut x: u128 = a;
    let mut y: u128 = b;
    while y != 0
        invariant
            gcd(x as nat, y as nat) == gcd(a as nat, b as nat),
        decreases y,
    {
        let h: u128 = x % y;
        x = y;
        y = h;
    }
    x
}

} // verus!
