//! The algebraic laws of the fraction engine.
//!
//! The operations in [`crate::fraction`] promise an exact representation
//! for each result.  This module relates those representations to the
//! rational numbers they denote: multiplying then dividing by the same
//! scalar or fraction gives back a value equal to the start, addition is
//! commutative representation for representation, and the canonical zero
//! absorbs every scalar.  Everything is stated over [`FracView`], the
//! mathematical model that every operation's contract speaks of.

use crate::fraction::add_den0;
use crate::fraction::add_num0;
use crate::fraction::add_ok;
use crate::fraction::add_sa;
use crate::fraction::add_sb;
use crate::fraction::add_view;
use crate::fraction::cnt_at;
use crate::fraction::den_scale_from;
use crate::fraction::fdiv_exps;
use crate::fraction::fits_i64;
use crate::fraction::fits_u64;
use crate::fraction::fmul_exps;
use crate::fraction::frac_div_view;
use crate::fraction::frac_mul_view;
use crate::fraction::lemma_cnt_at_le;
use crate::fraction::lemma_ext;
use crate::fraction::lemma_red_zero;
use crate::fraction::lemma_red_zero_any;
use crate::fraction::lemma_rest_after_le;
use crate::fraction::min_exps;
use crate::fraction::norm_res;
use crate::fraction::num_scale_from;
use crate::fraction::pos_part;
use crate::fraction::prime_val;
use crate::fraction::red_den;
use crate::fraction::red_mag_den;
use crate::fraction::red_mag_num;
use crate::fraction::red_num;
use crate::fraction::rest_after;
use crate::fraction::scalar_div_ok;
use crate::fraction::scalar_div_view;
use crate::fraction::scalar_mul_ok;
use crate::fraction::scalar_mul_view;
use crate::fraction::sdiv_den0;
use crate::fraction::sdiv_exps;
use crate::fraction::sgn_of;
use crate::fraction::smul_exps;
use crate::fraction::smul_num0;
use crate::fraction::val_den;
use crate::fraction::val_eq;
use crate::fraction::val_num;
use crate::fraction::wf;
use crate::fraction::zero_view;
use crate::fraction::FracView;
use crate::gcd::gcd;
use vstd::arithmetic::power::pow;
use vstd::math::abs;
use vstd::prelude::*;

verus! {

/// The exponents extracted from `m`, as a row.
pub open spec fn cnt_seq(m: nat) -> Seq<int> {
    Seq::new(8, |i: int| cnt_at(m, i) as int)
}

// Small product-rearrangement facts, each stated over plain integer
// variables so that its proof is a self-contained polynomial identity.

/// A common nonzero factor cancels from an equation.
proof fn lemma_mul_cancel(a: int, b: int, k: int)
    by (nonlinear_arith)
    requires
        a * k == b * k,
        k != 0,
    ensures
        a == b,
{
}

/// A product of numbers at least one is at least one.
proof fn lemma_mul_ge1(x: int, y: int)
    by (nonlinear_arith)
    requires
        x >= 1,
        y >= 1,
    ensures
        x * y >= 1,
{
}

/// A product of nonzero numbers is nonzero.
proof fn lemma_nonzero_mul(x: int, y: int)
    by (nonlinear_arith)
    requires
        x != 0,
        y != 0,
    ensures
        x * y != 0,
{
}

/// A zero left factor annihilates a product.
proof fn lemma_zero_factor(x: int, y: int)
    by (nonlinear_arith)
    requires
        x == 0,
    ensures
        x * y == 0,
{
}

/// A zero right factor annihilates a product.
proof fn lemma_mul_zero_right(x: int, y: int)
    by (nonlinear_arith)
    requires
        y == 0,
    ensures
        x * y == 0,
{
}

/// Two pairs multiply in either pairing.
proof fn lemma_shuffle4(a: int, b: int, c: int, d: int)
    by (nonlinear_arith)
    ensures
        (a * b) * (c * d) == (a * c) * (b * d),
{
}

/// The two outermost factors of a nested product may swap.
proof fn lemma_swap_inner(a: int, b: int, c: int, d: int)
    by (nonlinear_arith)
    ensures
        (a * (b * c)) * d == (a * (b * d)) * c,
{
}

/// A chain of four factors regroups into two pairs.
proof fn lemma_regroup(a: int, b: int, c: int, d: int)
    by (nonlinear_arith)
    ensures
        ((a * b) * c) * d == (a * c) * (b * d),
{
}

/// The right factor swaps with the inner one.
proof fn lemma_swap_right(a: int, b: int, c: int)
    by (nonlinear_arith)
    ensures
        (a * b) * c == (a * c) * b,
{
}

/// Folding a magnitude's sign back onto its factored form.
proof fn lemma_sgn_mul(n: int, m: int, sg: int, y: int, r: int)
    by (nonlinear_arith)
    requires
        n >= 0 ==> m == n,
        n < 0 ==> m == -n,
        n >= 0 ==> sg == 1,
        n < 0 ==> sg == -1,
        m == y * r,
    ensures
        n == sg * (y * r),
{
}

/// One extraction step folds into the factored product.
proof fn lemma_assoc_fold(ri: int, p: int, rj: int, ns2: int, r8: int, nsi: int)
    by (nonlinear_arith)
    requires
        ri == p * rj,
        rj == ns2 * r8,
        nsi == p * ns2,
    ensures
        ri == nsi * r8,
{
}

/// A reduced signed pair cross-multiplies against the raw pair.
proof fn lemma_red_sign(n: int, d: int, g: int, mn: int, md: int, rn: int, rd: int)
    by (nonlinear_arith)
    requires
        g >= 1,
        n >= 0 ==> n == mn * g,
        n < 0 ==> -n == mn * g,
        d >= 0 ==> d == md * g,
        d < 0 ==> -d == md * g,
        rn == if (n < 0) == (d < 0) {
            mn
        } else {
            -mn
        },
        rd == md,
    ensures
        rn * d == n * rd,
{
}

/// Three pairs of factors regroup into firsts times seconds.
proof fn lemma_merge_pairs(a: int, b: int, c: int, d: int, e: int, f: int)
    by (nonlinear_arith)
    ensures
        (a * b) * ((c * d) * (e * f)) == (a * (c * e)) * (b * (d * f)),
{
}

/// The product chase of a scalar multiplication.
proof fn lemma_smul_chase(sg: int, num: int, rest: int, vdr: int, dss: int, nx: int, ny: int)
    by (nonlinear_arith)
    ensures
        (((sg * num) * rest) * vdr) * (dss * (nx * ny)) == (((sg * (ny * rest)) * (num * nx))
            * vdr) * dss,
{
}

/// First step of the scalar division chase.
proof fn lemma_sdiv_s1(vnr: int, n: int, den: int, de: int, nss: int, ny: int)
    by (nonlinear_arith)
    ensures
        (vnr * (n * (den * de))) * (nss * ny) == (vnr * (n * den)) * (de * (nss * ny)),
{
}

/// A nested factor trades places across the pairing.
proof fn lemma_trade(v: int, x: int, d: int, n: int, t: int)
    by (nonlinear_arith)
    ensures
        (v * (x * d)) * (n * t) == (v * (d * t)) * (x * n),
{
}

/// The innermost factor moves out past the right one.
proof fn lemma_pull_out(a: int, b: int, c: int, d: int)
    by (nonlinear_arith)
    ensures
        (a * (b * c)) * d == ((a * b) * d) * c,
{
}

/// A factor folds from the right group into the left denominator.
proof fn lemma_fold_in(v: int, d: int, t: int, y: int, r: int)
    by (nonlinear_arith)
    ensures
        (v * (d * t)) * (y * r) == (v * ((d * r) * t)) * y,
{
}

/// Second step of the scalar division chase.
proof fn lemma_sdiv_s2(vnr: int, sg: int, ny: int, rest: int, den: int, ne: int, dss: int)
    ensures
        (vnr * ((sg * (ny * rest)) * den)) * (ne * dss) == (vnr * ((den * rest) * dss)) * ((sg
            * ny) * ne),
{
    lemma_trade(vnr, sg * (ny * rest), den, ne, dss);
    lemma_pull_out(sg, ny, rest, ne);
    lemma_fold_in(vnr, den, dss, (sg * ny) * ne, rest);
}

/// Third step of the scalar division chase.
proof fn lemma_sdiv_s3(sg: int, num: int, nss: int, vdr: int, ny: int, ne: int)
    by (nonlinear_arith)
    ensures
        (((sg * num) * nss) * vdr) * ((sg * ny) * ne) == ((sg * sg) * ((num * ne) * vdr)) * (nss
            * ny),
{
}

/// First step of the fraction multiplication chase.
proof fn lemma_fmul_s1(vnr: int, ad: int, da: int, bd: int, db: int, nss: int)
    by (nonlinear_arith)
    ensures
        (vnr * ((ad * da) * (bd * db))) * nss == (vnr * (ad * bd)) * (nss * (da * db)),
{
}

/// Second step of the fraction multiplication chase.
proof fn lemma_fmul_s2(vnr: int, ad: int, bd: int, dss: int, na: int, nb: int)
    by (nonlinear_arith)
    ensures
        (vnr * (ad * bd)) * (dss * (na * nb)) == (vnr * ((ad * bd) * dss)) * (na * nb),
{
}

/// Third step of the fraction multiplication chase.
proof fn lemma_fmul_s3(an: int, bn: int, nss: int, vdr: int, na: int, nb: int)
    by (nonlinear_arith)
    ensures
        (((an * bn) * nss) * vdr) * (na * nb) == (((an * na) * (bn * nb)) * vdr) * nss,
{
}

/// First step of the fraction division chase.
proof fn lemma_fdiv_s1(vnr: int, ad: int, da: int, bn: int, nb: int, dss: int)
    by (nonlinear_arith)
    ensures
        (vnr * ((ad * da) * (bn * nb))) * dss == (vnr * ((ad * bn) * dss)) * (da * nb),
{
}

/// Second step of the fraction division chase.
proof fn lemma_fdiv_s2(an: int, bd: int, nss: int, vdr: int, da: int, nb: int)
    by (nonlinear_arith)
    ensures
        (((an * bd) * nss) * vdr) * (da * nb) == ((an * bd) * vdr) * (da * (nss * nb)),
{
}

/// Third step of the fraction division chase.
proof fn lemma_fdiv_s3(an: int, bd: int, vdr: int, na: int, dss: int, db: int)
    by (nonlinear_arith)
    ensures
        ((an * bd) * vdr) * (na * (dss * db)) == (((an * na) * (bd * db)) * vdr) * dss,
{
}

/// First step of the inverse-law chase.
proof fn lemma_inv_s1(vn2: int, vda: int, vd1: int, vnb: int, vdb: int)
    by (nonlinear_arith)
    ensures
        (vn2 * vda) * (vd1 * (vnb * vdb)) == (vn2 * (vd1 * vnb)) * (vda * vdb),
{
}

/// Second step of the inverse-law chase.
proof fn lemma_inv_s2(vn1: int, vdb: int, vd2: int, vda: int)
    by (nonlinear_arith)
    ensures
        ((vn1 * vdb) * vd2) * (vda * vdb) == ((vn1 * (vda * vdb)) * vd2) * vdb,
{
}

/// Third step of the inverse-law chase.
proof fn lemma_inv_s3(vna: int, vnb: int, vd1: int, vd2: int, vdb: int)
    by (nonlinear_arith)
    ensures
        (((vna * vnb) * vd1) * vd2) * vdb == (vna * vd2) * (vd1 * (vnb * vdb)),
{
}

/// Final step of the scalar round-trip chase.
proof fn lemma_rt_s3(n: int, vnv: int, vd1: int, vd2: int)
    by (nonlinear_arith)
    ensures
        ((n * vnv) * vd1) * vd2 == (vnv * vd2) * (n * vd1),
{
}

/// Both factored scales are at least one.
pub proof fn lemma_scale_pos(e: Seq<int>, i: int)
    ensures
        num_scale_from(e, i) >= 1,
        den_scale_from(e, i) >= 1,
    decreases 8 - i,
{
    if 0 <= i < 8 {
        lemma_scale_pos(e, i + 1);
        vstd::arithmetic::power::lemma_pow_positive(prime_val(i), pos_part(e[i]));
        vstd::arithmetic::power::lemma_pow_positive(prime_val(i), pos_part(-e[i]));
        lemma_mul_ge1(pow(prime_val(i), pos_part(e[i])), num_scale_from(e, i + 1));
        lemma_mul_ge1(pow(prime_val(i), pos_part(-e[i])), den_scale_from(e, i + 1));
    }
}

/// The full denominator of a view with a positive residual denominator is
/// positive.
pub proof fn lemma_val_den_pos(v: FracView)
    requires
        v.den > 0,
    ensures
        val_den(v) >= 1,
{
    lemma_scale_pos(v.exps, 0);
    lemma_mul_ge1(v.den as int, den_scale_from(v.exps, 0));
}

/// For one prime, splitting an exponent into two addends balances: the
/// numerator-side power of the sum times the denominator-side powers of
/// the parts equals the denominator-side power of the sum times the
/// numerator-side powers of the parts.
proof fn lemma_pos_part_balance(p: int, x: int, y: int)
    requires
        p >= 2,
    ensures
        pow(p, pos_part(x + y)) * (pow(p, pos_part(-x)) * pow(p, pos_part(-y))) == pow(
            p,
            pos_part(-(x + y)),
        ) * (pow(p, pos_part(x)) * pow(p, pos_part(y))),
{
    let l: nat = (pos_part(x + y) + pos_part(-x) + pos_part(-y)) as nat;
    let r: nat = (pos_part(-(x + y)) + pos_part(x) + pos_part(y)) as nat;
    assert(l == r);
    vstd::arithmetic::power::lemma_pow_adds(p, pos_part(x + y), pos_part(-x) + pos_part(-y));
    vstd::arithmetic::power::lemma_pow_adds(p, pos_part(-x), pos_part(-y));
    vstd::arithmetic::power::lemma_pow_adds(p, pos_part(-(x + y)), pos_part(x) + pos_part(y));
    vstd::arithmetic::power::lemma_pow_adds(p, pos_part(x), pos_part(y));
}

/// The factored scales of an elementwise sum balance against the scales
/// of the addends, as rationals: sum-numerator times addend-denominators
/// equals sum-denominator times addend-numerators.
pub proof fn lemma_scale_merge(x: Seq<int>, y: Seq<int>, s: Seq<int>, i: int)
    requires
        forall|j: int| i <= j < 8 ==> #[trigger] s[j] == x[j] + y[j],
    ensures
        num_scale_from(s, i) * (den_scale_from(x, i) * den_scale_from(y, i)) == den_scale_from(
            s,
            i,
        ) * (num_scale_from(x, i) * num_scale_from(y, i)),
    decreases 8 - i,
{
    if 0 <= i < 8 {
        lemma_scale_merge(x, y, s, i + 1);
        lemma_pos_part_balance(prime_val(i), x[i], y[i]);
        let pns: int = pow(prime_val(i), pos_part(s[i]));
        let pds: int = pow(prime_val(i), pos_part(-s[i]));
        let pnx: int = pow(prime_val(i), pos_part(x[i]));
        let pdx: int = pow(prime_val(i), pos_part(-x[i]));
        let pny: int = pow(prime_val(i), pos_part(y[i]));
        let pdy: int = pow(prime_val(i), pos_part(-y[i]));
        let ns1: int = num_scale_from(s, i + 1);
        let ds1: int = den_scale_from(s, i + 1);
        let nx1: int = num_scale_from(x, i + 1);
        let dx1: int = den_scale_from(x, i + 1);
        let ny1: int = num_scale_from(y, i + 1);
        let dy1: int = den_scale_from(y, i + 1);
        lemma_merge_pairs(pns, ns1, pdx, dx1, pdy, dy1);
        lemma_merge_pairs(pds, ds1, pnx, nx1, pny, ny1);
        assert((pns * (pdx * pdy)) * (ns1 * (dx1 * dy1)) == (pds * (pnx * pny)) * (ds1 * (nx1
            * ny1)));
        assert((pns * ns1) * ((pdx * dx1) * (pdy * dy1)) == (pds * ds1) * ((pnx * nx1) * (pny
            * ny1)));
    }
}

/// A row with no negative entry contributes nothing to the denominator
/// side.
pub proof fn lemma_den_scale_one(e: Seq<int>, i: int)
    requires
        forall|j: int| i <= j < 8 ==> #[trigger] e[j] >= 0,
    ensures
        den_scale_from(e, i) == 1,
    decreases 8 - i,
{
    if 0 <= i < 8 {
        lemma_den_scale_one(e, i + 1);
        vstd::arithmetic::power::lemma_pow0(prime_val(i));
    }
}

/// Extraction as a whole: a positive magnitude is its residue times the
/// numerator scale of its extracted exponents.
pub proof fn lemma_rest_factor(m: nat, i: int)
    requires
        m >= 1,
        0 <= i <= 8,
    ensures
        rest_after(m, i) as int == num_scale_from(cnt_seq(m), i) * (rest_after(m, 8) as int),
    decreases 8 - i,
{
    if i == 8 {
        assert(num_scale_from(cnt_seq(m), 8) == 1);
    } else {
        lemma_rest_factor(m, i + 1);
        lemma_rest_after_le(m, i);
        lemma_ext(prime_val(i) as nat, rest_after(m, i));
        assert(cnt_seq(m)[i] == cnt_at(m, i) as int);
        assert(pos_part(cnt_seq(m)[i]) == cnt_at(m, i));
        assert(rest_after(m, i) as int == pow(prime_val(i), cnt_at(m, i)) * (rest_after(
            m,
            i + 1,
        ) as int));
        lemma_assoc_fold(
            rest_after(m, i) as int,
            pow(prime_val(i), cnt_at(m, i)),
            rest_after(m, i + 1) as int,
            num_scale_from(cnt_seq(m), i + 1),
            rest_after(m, 8) as int,
            num_scale_from(cnt_seq(m), i),
        );
    }
}

/// Reducing a residual pair preserves its value: the reduced numerator
/// times the old denominator equals the old numerator times the reduced
/// denominator.  The reduced denominator is positive, and the numerator
/// vanishes exactly when the input's does.
pub proof fn lemma_red_val(n: int, d: int)
    requires
        d != 0,
    ensures
        red_num(n, d) * d == n * red_den(n, d),
        red_den(n, d) >= 1,
        red_num(n, d) == 0 <==> n == 0,
{
    let g: nat = gcd(abs(n) as nat, abs(d) as nat);
    crate::gcd::lemma_gcd_pos(abs(n) as nat, abs(d) as nat);
    crate::gcd::lemma_gcd_divides(abs(n) as nat, abs(d) as nat);
    crate::gcd::lemma_div_exact(abs(n) as nat, g);
    crate::gcd::lemma_div_exact(abs(d) as nat, g);
    let mn: nat = red_mag_num(abs(n) as nat, abs(d) as nat);
    let md: nat = red_mag_den(abs(n) as nat, abs(d) as nat);
    lemma_red_sign(n, d, g as int, mn as int, md as int, red_num(n, d), red_den(n, d));
    if n == 0 {
        vstd::arithmetic::div_mod::lemma_div_of0(g as int);
    }
}

/// Normalization preserves the value of the whole fraction: the
/// normalized view cross-multiplies equally against the raw triple it
/// came from.
pub proof fn lemma_norm_val(e: Seq<int>, n: int, d: int)
    requires
        d != 0,
        e.len() == 8,
    ensures
        val_num(norm_res(e, n, d)) * (d * den_scale_from(e, 0)) == (n * num_scale_from(e, 0))
            * val_den(norm_res(e, n, d)),
        norm_res(e, n, d).den >= 1,
        norm_res(e, n, d).exps.len() == 8,
        norm_res(e, n, d).num == 0 <==> n == 0,
{
    lemma_red_val(n, d);
    let r = norm_res(e, n, d);
    if n == 0 {
        lemma_zero_factor(r.num as int, num_scale_from(r.exps, 0));
        lemma_zero_factor(val_num(r), d * den_scale_from(e, 0));
        lemma_zero_factor(n, num_scale_from(e, 0));
        lemma_zero_factor(n * num_scale_from(e, 0), val_den(r));
    } else {
        assert(r.num == red_num(n, d) && r.den == red_den(n, d) && r.exps == e);
        let rn: int = red_num(n, d);
        let rd: int = red_den(n, d);
        let ns: int = num_scale_from(e, 0);
        let ds: int = den_scale_from(e, 0);
        lemma_shuffle4(rn, ns, d, ds);
        lemma_shuffle4(n, ns, rd, ds);
        assert((rn * d) * (ns * ds) == (n * rd) * (ns * ds));
        assert((rn * ns) * (d * ds) == (n * ns) * (rd * ds));
    }
}

/// Multiplying by a nonzero scalar multiplies the value: the result
/// cross-multiplies against the operand as `n` to one.
pub proof fn lemma_scalar_mul_value(v: FracView, n: int)
    requires
        v.exps.len() == 8,
        v.den > 0,
        n != 0,
    ensures
        val_num(scalar_mul_view(v, n)) * val_den(v) == (n * val_num(v)) * val_den(
            scalar_mul_view(v, n),
        ),
        scalar_mul_view(v, n).den >= 1,
        scalar_mul_view(v, n).exps.len() == 8,
{
    let m: nat = abs(n) as nat;
    let s: Seq<int> = smul_exps(v, n);
    let r = scalar_mul_view(v, n);
    let sg: int = sgn_of(n);
    let cs: Seq<int> = cnt_seq(m);
    let rest: int = rest_after(m, 8) as int;
    let ny: int = num_scale_from(cs, 0);
    assert(forall|j: int| 0 <= j < 8 ==> #[trigger] s[j] == v.exps[j] + cs[j]);
    lemma_scale_merge(v.exps, cs, s, 0);
    assert(forall|j: int| 0 <= j < 8 ==> #[trigger] cs[j] >= 0);
    lemma_den_scale_one(cs, 0);
    lemma_rest_factor(m, 0);
    lemma_norm_val(s, smul_num0(v, n), v.den);
    lemma_scale_pos(s, 0);
    lemma_scale_pos(v.exps, 0);
    lemma_scale_pos(cs, 0);
    lemma_sgn_mul(n, m as int, sg, ny, rest);
    let vnr: int = val_num(r);
    let vdr: int = val_den(r);
    let nss: int = num_scale_from(s, 0);
    let dss: int = den_scale_from(s, 0);
    let nx: int = num_scale_from(v.exps, 0);
    let dx: int = den_scale_from(v.exps, 0);
    let num0: int = smul_num0(v, n);
    assert(num0 == (sg * v.num) * rest);
    lemma_swap_inner(vnr, v.den as int, dx, dss);
    assert((vnr * (v.den * dss)) * dx == ((num0 * nss) * vdr) * dx);
    lemma_regroup(num0, nss, vdr, dx);
    assert(nss * dx == dss * (nx * ny));
    lemma_smul_chase(sg, v.num, rest, vdr, dss, nx, ny);
    assert((num0 * vdr) * (nss * dx) == (((sg * (ny * rest)) * (v.num * nx)) * vdr) * dss);
    assert((vnr * (v.den * dx)) * dss == ((n * (v.num * nx)) * vdr) * dss);
    lemma_mul_cancel(vnr * (v.den * dx), (n * (v.num * nx)) * vdr, dss);
}

/// Dividing by a nonzero scalar divides the value: the result
/// cross-multiplies against the operand as one to `n`.
pub proof fn lemma_scalar_div_value(v: FracView, n: int)
    requires
        v.exps.len() == 8,
        v.den > 0,
        n != 0,
    ensures
        val_num(scalar_div_view(v, n)) * (n * val_den(v)) == val_num(v) * val_den(
            scalar_div_view(v, n),
        ),
        scalar_div_view(v, n).den >= 1,
        scalar_div_view(v, n).exps.len() == 8,
{
    let m: nat = abs(n) as nat;
    let s: Seq<int> = sdiv_exps(v, n);
    let r = scalar_div_view(v, n);
    let sg: int = sgn_of(n);
    let cs: Seq<int> = cnt_seq(m);
    let rest: int = rest_after(m, 8) as int;
    let ny: int = num_scale_from(cs, 0);
    assert(forall|j: int| 0 <= j < 8 ==> #[trigger] v.exps[j] == s[j] + cs[j]);
    lemma_scale_merge(s, cs, v.exps, 0);
    assert(forall|j: int| 0 <= j < 8 ==> #[trigger] cs[j] >= 0);
    lemma_den_scale_one(cs, 0);
    lemma_rest_factor(m, 0);
    lemma_rest_after_le(m, 0);
    lemma_mul_ge1(v.den as int, rest);
    assert(sdiv_den0(v, n) != 0);
    lemma_norm_val(s, sg * v.num, sdiv_den0(v, n));
    lemma_scale_pos(s, 0);
    lemma_scale_pos(v.exps, 0);
    lemma_scale_pos(cs, 0);
    lemma_sgn_mul(n, m as int, sg, ny, rest);
    let vnr: int = val_num(r);
    let vdr: int = val_den(r);
    let nss: int = num_scale_from(s, 0);
    let dss: int = den_scale_from(s, 0);
    let ne: int = num_scale_from(v.exps, 0);
    let de: int = den_scale_from(v.exps, 0);
    let den0: int = sdiv_den0(v, n);
    let num0: int = sg * v.num;
    let t: int = nss * ny;
    assert(ne * dss == de * (nss * ny));
    lemma_sdiv_s1(vnr, n, v.den as int, de, nss, ny);
    assert((vnr * (n * v.den)) * (de * (nss * ny)) == (vnr * (n * v.den)) * (ne * dss));
    assert((vnr * (n * v.den)) * (ne * dss) == (vnr * ((sg * (ny * rest)) * v.den)) * (ne
        * dss));
    lemma_sdiv_s2(vnr, sg, ny, rest, v.den as int, ne, dss);
    assert(den0 == v.den * rest);
    assert((vnr * ((v.den * rest) * dss)) * ((sg * ny) * ne) == ((num0 * nss) * vdr) * ((sg
        * ny) * ne));
    lemma_sdiv_s3(sg, v.num, nss, vdr, ny, ne);
    assert(sg * sg == 1);
    assert((1int * ((v.num * ne) * vdr)) * t == ((v.num * ne) * vdr) * t);
    assert((vnr * (n * (v.den * de))) * t == (val_num(v) * vdr) * t);
    lemma_mul_ge1(nss, ny);
    lemma_mul_cancel(vnr * (n * (v.den * de)), val_num(v) * vdr, t);
}

/// Multiplying or dividing the canonical zero by any representable
/// nonzero scalar keeps it canonical zero, and neither operation can
/// overflow.
pub proof fn lemma_zero_scalar_absorbs(n: int)
    requires
        n != 0,
        i64::MIN <= n <= i64::MAX,
    ensures
        scalar_mul_ok(zero_view(), n),
        scalar_div_ok(zero_view(), n),
        scalar_mul_view(zero_view(), n) == zero_view(),
        scalar_div_view(zero_view(), n) == zero_view(),
{
    let z = zero_view();
    let m: nat = abs(n) as nat;
    assert forall|i: int| 0 <= i < 8 implies fits_i64(#[trigger] smul_exps(z, n)[i]) by {
        lemma_cnt_at_le(m, i);
    }
    assert forall|i: int| 0 <= i < 8 implies fits_i64(#[trigger] sdiv_exps(z, n)[i]) by {
        lemma_cnt_at_le(m, i);
    }
    let rest: int = rest_after(m, 8) as int;
    lemma_mul_zero_right(sgn_of(n), z.num);
    lemma_zero_factor(sgn_of(n) * z.num, rest);
    assert(smul_num0(z, n) == 0);
    lemma_rest_after_le(m, 8);
    lemma_mul_ge1(z.den as int, rest);
    assert(sdiv_den0(z, n) >= 1);
    lemma_red_zero(z.den as nat);
    lemma_red_zero_any(sdiv_den0(z, n));
    assert(fits_i64(red_num(smul_num0(z, n), z.den)));
    assert(scalar_mul_ok(z, n));
    assert(fits_i64(red_num(sgn_of(n) * z.num, sdiv_den0(z, n))));
    assert(fits_u64(red_den(sgn_of(n) * z.num, sdiv_den0(z, n))));
    assert(scalar_div_ok(z, n));
    assert(scalar_mul_view(z, n) == zero_view());
    assert(scalar_div_view(z, n) == zero_view());
}

/// Round trip: multiplying a fraction by a nonzero scalar and then
/// dividing by the same scalar yields a value equal to the original
/// (the canonical zero collapses to itself along the way).
pub proof fn lemma_scalar_round_trip(v: FracView, n: int)
    requires
        wf(v),
        n != 0,
    ensures
        val_eq(scalar_div_view(scalar_mul_view(v, n), n), v),
{
    let r1 = scalar_mul_view(v, n);
    let r2 = scalar_div_view(r1, n);
    lemma_scalar_mul_value(v, n);
    lemma_scalar_div_value(r1, n);
    lemma_val_den_pos(r1);
    lemma_val_den_pos(v);
    lemma_val_den_pos(r2);
    let k: int = n * val_den(r1);
    lemma_nonzero_mul(n, val_den(r1));
    let vn1: int = val_num(r1);
    let vd1: int = val_den(r1);
    let vn2: int = val_num(r2);
    let vd2: int = val_den(r2);
    let vnv: int = val_num(v);
    let vdv: int = val_den(v);
    lemma_swap_right(vn2, vdv, n * vd1);
    assert((vn2 * (n * vd1)) * vdv == (vn1 * vd2) * vdv);
    lemma_swap_right(vn1, vd2, vdv);
    assert((vn1 * vdv) * vd2 == ((n * vnv) * vd1) * vd2);
    lemma_rt_s3(n, vnv, vd1, vd2);
    assert((vn2 * vdv) * k == (vnv * vd2) * k);
    lemma_mul_cancel(val_num(r2) * val_den(v), val_num(v) * val_den(r2), k);
}

/// Multiplying two fractions multiplies their values: the product
/// cross-multiplies against the operands' product.
pub proof fn lemma_frac_mul_value(a: FracView, b: FracView)
    requires
        a.exps.len() == 8,
        b.exps.len() == 8,
        a.den > 0,
        b.den > 0,
    ensures
        val_num(frac_mul_view(a, b)) * (val_den(a) * val_den(b)) == (val_num(a) * val_num(b))
            * val_den(frac_mul_view(a, b)),
        frac_mul_view(a, b).den >= 1,
        frac_mul_view(a, b).exps.len() == 8,
{
    let s: Seq<int> = fmul_exps(a, b);
    let r = frac_mul_view(a, b);
    assert(forall|j: int| 0 <= j < 8 ==> #[trigger] s[j] == a.exps[j] + b.exps[j]);
    lemma_scale_merge(a.exps, b.exps, s, 0);
    lemma_mul_ge1(a.den as int, b.den as int);
    lemma_norm_val(s, a.num * b.num, a.den * b.den);
    lemma_scale_pos(s, 0);
    lemma_scale_pos(a.exps, 0);
    lemma_scale_pos(b.exps, 0);
    let vnr: int = val_num(r);
    let vdr: int = val_den(r);
    let nss: int = num_scale_from(s, 0);
    let dss: int = den_scale_from(s, 0);
    let na: int = num_scale_from(a.exps, 0);
    let da: int = den_scale_from(a.exps, 0);
    let nb: int = num_scale_from(b.exps, 0);
    let db: int = den_scale_from(b.exps, 0);
    lemma_fmul_s1(vnr, a.den as int, da, b.den as int, db, nss);
    assert((vnr * (a.den * b.den)) * (nss * (da * db)) == (vnr * (a.den * b.den)) * (dss * (na
        * nb)));
    lemma_fmul_s2(vnr, a.den as int, b.den as int, dss, na, nb);
    assert((vnr * ((a.den * b.den) * dss)) * (na * nb) == (((a.num * b.num) * nss) * vdr) * (na
        * nb));
    lemma_fmul_s3(a.num, b.num, nss, vdr, na, nb);
    assert((vnr * ((a.den * da) * (b.den * db))) * nss == (((a.num * na) * (b.num * nb)) * vdr)
        * nss);
    lemma_mul_cancel(
        vnr * ((a.den * da) * (b.den * db)),
        ((a.num * na) * (b.num * nb)) * vdr,
        nss,
    );
    assert(vnr * (val_den(a) * val_den(b)) == (val_num(a) * val_num(b)) * vdr);
}

/// Dividing by a fraction with a nonzero residual numerator divides the
/// values: the quotient cross-multiplies as the left value over the
/// right value.
pub proof fn lemma_frac_div_value(a: FracView, b: FracView)
    requires
        a.exps.len() == 8,
        b.exps.len() == 8,
        a.den > 0,
        b.den > 0,
        b.num != 0,
    ensures
        val_num(frac_div_view(a, b)) * (val_den(a) * val_num(b)) == (val_num(a) * val_den(b))
            * val_den(frac_div_view(a, b)),
        frac_div_view(a, b).den >= 1,
        frac_div_view(a, b).exps.len() == 8,
{
    let s: Seq<int> = fdiv_exps(a, b);
    let r = frac_div_view(a, b);
    assert(forall|j: int| 0 <= j < 8 ==> #[trigger] a.exps[j] == s[j] + b.exps[j]);
    lemma_scale_merge(s, b.exps, a.exps, 0);
    lemma_nonzero_mul(a.den as int, b.num);
    lemma_norm_val(s, a.num * b.den, a.den * b.num);
    lemma_scale_pos(s, 0);
    lemma_scale_pos(a.exps, 0);
    lemma_scale_pos(b.exps, 0);
    let vnr: int = val_num(r);
    let vdr: int = val_den(r);
    let nss: int = num_scale_from(s, 0);
    let dss: int = den_scale_from(s, 0);
    let na: int = num_scale_from(a.exps, 0);
    let da: int = den_scale_from(a.exps, 0);
    let nb: int = num_scale_from(b.exps, 0);
    let db: int = den_scale_from(b.exps, 0);
    lemma_fdiv_s1(vnr, a.den as int, da, b.num, nb, dss);
    assert((vnr * ((a.den * b.num) * dss)) * (da * nb) == (((a.num * b.den) * nss) * vdr) * (da
        * nb));
    lemma_fdiv_s2(a.num, b.den as int, nss, vdr, da, nb);
    assert(((a.num * b.den) * vdr) * (da * (nss * nb)) == ((a.num * b.den) * vdr) * (na * (dss
        * db)));
    lemma_fdiv_s3(a.num, b.den as int, vdr, na, dss, db);
    assert((vnr * ((a.den * da) * (b.num * nb))) * dss == (((a.num * na) * (b.den * db)) * vdr)
        * dss);
    lemma_mul_cancel(
        vnr * ((a.den * da) * (b.num * nb)),
        ((a.num * na) * (b.den * db)) * vdr,
        dss,
    );
}

/// Inverse law: multiplying by a fraction whose residual numerator is
/// nonzero and then dividing by the same fraction yields a value equal
/// to the original (the canonical zero collapses to itself along the
/// way).
pub proof fn lemma_mul_div_inverse(a: FracView, b: FracView)
    requires
        wf(a),
        wf(b),
        b.num != 0,
    ensures
        val_eq(frac_div_view(frac_mul_view(a, b), b), a),
{
    let r1 = frac_mul_view(a, b);
    let r2 = frac_div_view(r1, b);
    lemma_frac_mul_value(a, b);
    lemma_frac_div_value(r1, b);
    lemma_val_den_pos(a);
    lemma_val_den_pos(b);
    lemma_val_den_pos(r1);
    lemma_val_den_pos(r2);
    lemma_scale_pos(b.exps, 0);
    let vnb: int = val_num(b);
    lemma_nonzero_mul(b.num, num_scale_from(b.exps, 0));
    assert(vnb != 0);
    let k: int = val_den(r1) * (vnb * val_den(b));
    lemma_nonzero_mul(vnb, val_den(b));
    lemma_nonzero_mul(val_den(r1), vnb * val_den(b));
    let vn1: int = val_num(r1);
    let vd1: int = val_den(r1);
    let vn2: int = val_num(r2);
    let vd2: int = val_den(r2);
    let vna: int = val_num(a);
    let vda: int = val_den(a);
    let vdb: int = val_den(b);
    lemma_inv_s1(vn2, vda, vd1, vnb, vdb);
    assert((vn2 * (vd1 * vnb)) * (vda * vdb) == ((vn1 * vdb) * vd2) * (vda * vdb));
    lemma_inv_s2(vn1, vdb, vd2, vda);
    assert(((vn1 * (vda * vdb)) * vd2) * vdb == (((vna * vnb) * vd1) * vd2) * vdb);
    lemma_inv_s3(vna, vnb, vd1, vd2, vdb);
    assert((vn2 * vda) * k == (vna * vd2) * k);
    lemma_mul_cancel(val_num(r2) * val_den(a), val_num(a) * val_den(r2), k);
}

/// Addition is commutative representation for representation: the two
/// sums normalize to the identical view, and one overflows exactly when
/// the other does.
pub proof fn lemma_add_comm(a: FracView, b: FracView)
    requires
        wf(a),
        wf(b),
    ensures
        add_view(a, b) == add_view(b, a),
        add_ok(a, b) == add_ok(b, a),
{
    crate::gcd::lemma_gcd_comm(a.den as nat, b.den as nat);
    assert(min_exps(a, b) =~= min_exps(b, a));
    assert(add_sa(a, b) == add_sb(b, a));
    assert(add_sb(a, b) == add_sa(b, a));
    vstd::arithmetic::mul::lemma_mul_is_commutative(a.den as int, b.den as int);
    assert(add_den0(a, b) == add_den0(b, a));
    assert(add_num0(a, b) == add_num0(b, a));
    assert(add_view(a, b) == add_view(b, a));
}

} // verus!
