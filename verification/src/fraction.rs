//! The exact rational value type of the calculator core.
//!
//! A [`Fraction`] keeps a signed rational in a two-layer form: an explicit
//! signed exponent for each of the eight fixed primes 2, 3, 5, 7, 11, 13,
//! 17 and 19, plus a residual numerator/denominator pair for everything
//! else.  The residual pair is always held in lowest terms, the denominator
//! is always positive, and the value zero has exactly one representation
//! (all exponents zero, residual 0/1).
//!
//! All arithmetic widens to 128-bit intermediates; an operation fails with
//! [`FracError::Overflow`] when a result no longer fits the 64-bit storage
//! fields, rather than ever storing a wrong value.

use crate::gcd::gcd;
use vstd::arithmetic::power::pow;
use vstd::math::abs;
use vstd::prelude::*;

verus! {

/// The errors an arithmetic operation can signal.
#[derive(Clone, Copy, Debug, PartialEq, Eq, Structural)]
pub enum FracError {
    /// Division by a zero integer or by a zero fraction, rejected before
    /// any state changes.
    DivideByZero,
    /// A reduced result no longer fits the 64-bit storage fields.
    Overflow,
}

/// The mathematical model of a fraction: eight prime exponents and the
/// residual pair, all as unbounded integers.
#[verifier::ext_equal]
pub ghost struct FracView {
    pub exps: Seq<int>,
    pub num: int,
    pub den: int,
}

/// The fixed prime at position `i` of the tracked set.
pub open spec fn prime_val(i: int) -> int {
    if i == 0 {
        2
    } else if i == 1 {
        3
    } else if i == 2 {
        5
    } else if i == 3 {
        7
    } else if i == 4 {
        11
    } else if i == 5 {
        13
    } else if i == 6 {
        17
    } else {
        19
    }
}

/// The fixed primes whose exponents are tracked explicitly.
pub open spec fn prime_seq() -> Seq<int> {
    Seq::new(8, |i: int| prime_val(i))
}

/// A stored exponent row, widened to unbounded integers.
pub open spec fn exps_int(v: Seq<i64>) -> Seq<int> {
    Seq::new(v.len() as nat, |i: int| v[i] as int)
}

/// The canonical representation of the value zero.
pub open spec fn zero_view() -> FracView {
    FracView { exps: Seq::new(8, |i: int| 0), num: 0, den: 1 }
}

/// The positive part of an exponent: `e` if nonnegative, else zero.
pub open spec fn pos_part(e: int) -> nat {
    if e >= 0 {
        e as nat
    } else {
        0
    }
}

/// Product of `p_i ^ pos_part(exps[i])` over the primes from `i` upward:
/// the factored contribution to the numerator side.
pub open spec fn num_scale_from(exps: Seq<int>, i: int) -> int
    decreases 8 - i,
{
    if i < 0 || i >= 8 {
        1
    } else {
        pow(prime_seq()[i], pos_part(exps[i])) * num_scale_from(exps, i + 1)
    }
}

/// Product of `p_i ^ pos_part(-exps[i])` over the primes from `i` upward:
/// the factored contribution to the denominator side.
pub open spec fn den_scale_from(exps: Seq<int>, i: int) -> int
    decreases 8 - i,
{
    if i < 0 || i >= 8 {
        1
    } else {
        pow(prime_seq()[i], pos_part(-exps[i])) * den_scale_from(exps, i + 1)
    }
}

/// The full numerator of a view, factored primes included.
pub open spec fn val_num(v: FracView) -> int {
    v.num * num_scale_from(v.exps, 0)
}

/// The full denominator of a view, factored primes included.
pub open spec fn val_den(v: FracView) -> int {
    v.den * den_scale_from(v.exps, 0)
}

/// Two views denote the same rational number (by cross-multiplication).
pub open spec fn val_eq(a: FracView, b: FracView) -> bool {
    val_num(a) * val_den(b) == val_num(b) * val_den(a)
}

/// Magnitude of the reduced numerator of the pair `n / d`.
pub open spec fn red_mag_num(n: nat, d: nat) -> nat {
    n / gcd(n, d)
}

/// Magnitude of the reduced denominator of the pair `n / d`.
pub open spec fn red_mag_den(n: nat, d: nat) -> nat {
    d / gcd(n, d)
}

/// The reduced numerator of `n / d`, carrying the sign of the whole value.
pub open spec fn red_num(n: int, d: int) -> int {
    if (n < 0) == (d < 0) {
        red_mag_num(abs(n) as nat, abs(d) as nat) as int
    } else {
        -(red_mag_num(abs(n) as nat, abs(d) as nat) as int)
    }
}

/// The reduced denominator of `n / d`, always positive for `d != 0`.
pub open spec fn red_den(n: int, d: int) -> int {
    red_mag_den(abs(n) as nat, abs(d) as nat) as int
}

/// The view that results from normalizing exponents `exps` over the raw
/// residual pair `n / d`: canonical zero when `n` is zero, otherwise the
/// reduced pair with the exponents kept.
pub open spec fn norm_res(exps: Seq<int>, n: int, d: int) -> FracView {
    if n == 0 {
        zero_view()
    } else {
        FracView { exps, num: red_num(n, d), den: red_den(n, d) }
    }
}

/// How many times `p` divides `m`.
pub open spec fn ext_count(p: nat, m: nat) -> nat
    decreases m,
    via ext_count_decreases
{
    if p >= 2 && m >= 1 && m % p == 0 {
        1 + ext_count(p, m / p)
    } else {
        0
    }
}

#[via_fn]
proof fn ext_count_decreases(p: nat, m: nat) {
    if p >= 2 && m >= 1 && m % p == 0 {
        vstd::arithmetic::div_mod::lemma_div_decreases(m as int, p as int);
    }
}

/// What remains of `m` after every factor `p` is divided out.
pub open spec fn ext_rest(p: nat, m: nat) -> nat
    decreases m,
    via ext_rest_decreases
{
    if p >= 2 && m >= 1 && m % p == 0 {
        ext_rest(p, m / p)
    } else {
        m
    }
}

#[via_fn]
proof fn ext_rest_decreases(p: nat, m: nat) {
    if p >= 2 && m >= 1 && m % p == 0 {
        vstd::arithmetic::div_mod::lemma_div_decreases(m as int, p as int);
    }
}

/// The residue of `m` after the first `i` fixed primes are extracted in
/// order.
pub open spec fn rest_after(m: nat, i: int) -> nat
    decreases i,
{
    if i <= 0 {
        m
    } else {
        ext_rest(prime_val(i - 1) as nat, rest_after(m, i - 1))
    }
}

/// The exponent extracted for the fixed prime at position `i` when `m` is
/// factored in order.
pub open spec fn cnt_at(m: nat, i: int) -> nat {
    ext_count(prime_val(i) as nat, rest_after(m, i))
}

/// The sign of a scalar, as a factor.
pub open spec fn sgn_of(n: int) -> int {
    if n < 0 {
        -1
    } else {
        1
    }
}

/// A value representable by the stored exponent type.
pub open spec fn fits_i64(x: int) -> bool {
    i64::MIN <= x <= i64::MAX
}

/// A value representable by the stored denominator type.
pub open spec fn fits_u64(x: int) -> bool {
    0 <= x <= u64::MAX
}

/// A value representable by the widened intermediate type.
pub open spec fn fits_i128(x: int) -> bool {
    i128::MIN <= x <= i128::MAX
}

/// The exponents after a scalar multiplication: each fixed prime gains the
/// exponent extracted from the scalar's magnitude.
pub open spec fn smul_exps(v: FracView, n: int) -> Seq<int> {
    Seq::new(8, |i: int| v.exps[i] + cnt_at(abs(n) as nat, i))
}

/// The raw residual numerator of a scalar multiplication, before
/// normalization: sign folded in, coprime remainder multiplied on.
pub open spec fn smul_num0(v: FracView, n: int) -> int {
    sgn_of(n) * v.num * (rest_after(abs(n) as nat, 8) as int)
}

/// What multiplying by the scalar `n` yields.
pub open spec fn scalar_mul_view(v: FracView, n: int) -> FracView {
    if n == 0 {
        zero_view()
    } else {
        norm_res(smul_exps(v, n), smul_num0(v, n), v.den)
    }
}

/// When a scalar multiplication stays within the storage widths.
pub open spec fn scalar_mul_ok(v: FracView, n: int) -> bool {
    n == 0 || {
        &&& forall|i: int| 0 <= i < 8 ==> fits_i64(#[trigger] smul_exps(v, n)[i])
        &&& fits_i64(red_num(smul_num0(v, n), v.den))
    }
}

/// The exponents after a scalar division: each fixed prime loses the
/// exponent extracted from the scalar's magnitude.
pub open spec fn sdiv_exps(v: FracView, n: int) -> Seq<int> {
    Seq::new(8, |i: int| v.exps[i] - cnt_at(abs(n) as nat, i))
}

/// The raw residual denominator of a scalar division, before
/// normalization: the scalar's coprime remainder multiplied on.
pub open spec fn sdiv_den0(v: FracView, n: int) -> int {
    v.den * (rest_after(abs(n) as nat, 8) as int)
}

/// What dividing by the nonzero scalar `n` yields.
pub open spec fn scalar_div_view(v: FracView, n: int) -> FracView {
    norm_res(sdiv_exps(v, n), sgn_of(n) * v.num, sdiv_den0(v, n))
}

/// When a scalar division stays within the storage widths.
pub open spec fn scalar_div_ok(v: FracView, n: int) -> bool {
    &&& forall|i: int| 0 <= i < 8 ==> fits_i64(#[trigger] sdiv_exps(v, n)[i])
    &&& fits_i64(red_num(sgn_of(n) * v.num, sdiv_den0(v, n)))
    &&& fits_u64(red_den(sgn_of(n) * v.num, sdiv_den0(v, n)))
}

/// When a reduced residual pair fits the storage widths.
pub open spec fn rest_mul_ok(n: int, d: int) -> bool {
    &&& fits_i64(red_num(n, d))
    &&& fits_u64(red_den(n, d))
}

/// The exponents after multiplying by another fraction: elementwise sums.
pub open spec fn fmul_exps(a: FracView, b: FracView) -> Seq<int> {
    Seq::new(8, |i: int| a.exps[i] + b.exps[i])
}

/// What multiplying by the fraction `b` yields.
pub open spec fn frac_mul_view(a: FracView, b: FracView) -> FracView {
    norm_res(fmul_exps(a, b), a.num * b.num, a.den * b.den)
}

/// When a fraction multiplication stays within the storage widths.
pub open spec fn frac_mul_ok(a: FracView, b: FracView) -> bool {
    &&& forall|i: int| 0 <= i < 8 ==> fits_i64(#[trigger] fmul_exps(a, b)[i])
    &&& rest_mul_ok(a.num * b.num, a.den * b.den)
}

/// The exponents after dividing by another fraction: elementwise
/// differences.
pub open spec fn fdiv_exps(a: FracView, b: FracView) -> Seq<int> {
    Seq::new(8, |i: int| a.exps[i] - b.exps[i])
}

/// What dividing by the nonzero fraction `b` yields: multiplication by
/// the reciprocal of its residual pair, exponents subtracted.
pub open spec fn frac_div_view(a: FracView, b: FracView) -> FracView {
    norm_res(fdiv_exps(a, b), a.num * b.den, a.den * b.num)
}

/// When a fraction division stays within the storage widths.
pub open spec fn frac_div_ok(a: FracView, b: FracView) -> bool {
    &&& forall|i: int| 0 <= i < 8 ==> fits_i64(#[trigger] fdiv_exps(a, b)[i])
    &&& rest_mul_ok(a.num * b.den, a.den * b.num)
}

/// The elementwise minimum of two exponent rows: the factored part of the
/// common denominator that both operands share.
pub open spec fn min_exps(a: FracView, b: FracView) -> Seq<int> {
    Seq::new(
        8,
        |i: int|
            if a.exps[i] <= b.exps[i] {
                a.exps[i]
            } else {
                b.exps[i]
            },
    )
}

/// Product over the primes from `i` upward of each prime raised to the
/// amount by which the row `e` exceeds the row `m`.
pub open spec fn excess_prod_from(e: Seq<int>, m: Seq<int>, i: int) -> int
    decreases 8 - i,
{
    if i < 0 || i >= 8 {
        1
    } else {
        pow(prime_val(i), (e[i] - m[i]) as nat) * excess_prod_from(e, m, i + 1)
    }
}

/// The gcd of the two residual denominators, the shared factor of the
/// common denominator.
pub open spec fn add_rft(a: FracView, b: FracView) -> int {
    gcd(a.den as nat, b.den as nat) as int
}

/// The left operand's residual numerator scaled onto the common
/// denominator: by the other denominator's cofactor and by its own excess
/// prime powers.
pub open spec fn add_sa(a: FracView, b: FracView) -> int {
    a.num * (b.den / add_rft(a, b)) * excess_prod_from(a.exps, min_exps(a, b), 0)
}

/// The right operand's residual numerator scaled onto the common
/// denominator.
pub open spec fn add_sb(a: FracView, b: FracView) -> int {
    b.num * (a.den / add_rft(a, b)) * excess_prod_from(b.exps, min_exps(a, b), 0)
}

/// The raw residual numerator of a sum, before normalization.
pub open spec fn add_num0(a: FracView, b: FracView) -> int {
    add_sa(a, b) + add_sb(a, b)
}

/// The raw residual denominator of a sum, before normalization.
pub open spec fn add_den0(a: FracView, b: FracView) -> int {
    (a.den * b.den) / add_rft(a, b)
}

/// What adding the fractions yields.
pub open spec fn add_view(a: FracView, b: FracView) -> FracView {
    norm_res(min_exps(a, b), add_num0(a, b), add_den0(a, b))
}

/// When an addition stays within the widened intermediates and the
/// storage widths: each excess power product must fit the widened type,
/// each scaled numerator and their sum likewise, and the reduced result
/// must fit the storage fields.
pub open spec fn add_ok(a: FracView, b: FracView) -> bool {
    &&& excess_prod_from(a.exps, min_exps(a, b), 0) <= i128::MAX
    &&& excess_prod_from(b.exps, min_exps(a, b), 0) <= i128::MAX
    &&& fits_i128(add_sa(a, b))
    &&& fits_i128(add_sb(a, b))
    &&& fits_i128(add_num0(a, b))
    &&& fits_i64(red_num(add_num0(a, b), add_den0(a, b)))
    &&& fits_u64(red_den(add_num0(a, b), add_den0(a, b)))
}

/// Well-formedness: the invariants every operation establishes.
pub open spec fn wf(v: FracView) -> bool {
    &&& v.exps.len() == 8
    &&& forall|i: int| 0 <= i < 8 ==> i64::MIN <= #[trigger] v.exps[i] <= i64::MAX
    &&& i64::MIN <= v.num <= i64::MAX
    &&& 0 < v.den <= u64::MAX
    &&& (v.num == 0 ==> v == zero_view())
    &&& gcd(abs(v.num) as nat, v.den as nat) == 1
}

/// Extraction is sound: the extracted prime power times the remainder
/// rebuilds the input, and the remainder stays within it.
pub proof fn lemma_ext(p: nat, m: nat)
    requires
        p >= 2,
        m >= 1,
    ensures
        m == pow(p as int, ext_count(p, m)) * ext_rest(p, m),
        1 <= ext_rest(p, m) <= m,
    decreases m,
{
    if m % p == 0 {
        crate::gcd::lemma_divides_mod(p, m);
        crate::gcd::lemma_div_exact(m, p);
        vstd::arithmetic::div_mod::lemma_div_decreases(m as int, p as int);
        lemma_ext(p, m / p);
        let c: nat = ext_count(p, m / p);
        let r: nat = ext_rest(p, m / p);
        vstd::arithmetic::power::lemma_pow1(p as int);
        vstd::arithmetic::power::lemma_pow_adds(p as int, 1, c);
        assert(pow(p as int, c + 1) == (p as int) * pow(p as int, c));
        assert(m == pow(p as int, c + 1) * r) by (nonlinear_arith)
            requires
                m as int == ((m / p) as int) * (p as int),
                (m / p) as int == pow(p as int, c) * (r as int),
                pow(p as int, c + 1) == (p as int) * pow(p as int, c),
        ;
    } else {
        vstd::arithmetic::power::lemma_pow0(p as int);
    }
}

/// The remainder of extraction never exceeds the input, and a positive
/// input leaves a positive remainder.
pub proof fn lemma_ext_rest_le(p: nat, m: nat)
    ensures
        ext_rest(p, m) <= m,
        m >= 1 ==> ext_rest(p, m) >= 1,
    decreases m,
{
    if p >= 2 && m >= 1 && m % p == 0 {
        vstd::arithmetic::div_mod::lemma_div_decreases(m as int, p as int);
        crate::gcd::lemma_divides_mod(p, m);
        crate::gcd::lemma_div_exact(m, p);
        lemma_ext_rest_le(p, m / p);
    }
}

/// Extracting the fixed primes in order never grows the residue.
pub proof fn lemma_rest_after_le(m: nat, i: int)
    ensures
        rest_after(m, i) <= m,
        m >= 1 ==> rest_after(m, i) >= 1,
    decreases i,
{
    if i > 0 {
        lemma_rest_after_le(m, i - 1);
        lemma_ext_rest_le(prime_val(i - 1) as nat, rest_after(m, i - 1));
    }
}

/// Powers grow with the base.
pub proof fn lemma_pow_base_le(b1: nat, b2: nat, e: nat)
    requires
        1 <= b1 <= b2,
    ensures
        0 < pow(b1 as int, e) <= pow(b2 as int, e),
    decreases e,
{
    if e == 0 {
        vstd::arithmetic::power::lemma_pow0(b1 as int);
        vstd::arithmetic::power::lemma_pow0(b2 as int);
    } else {
        lemma_pow_base_le(b1, b2, (e - 1) as nat);
        vstd::arithmetic::power::lemma_pow1(b1 as int);
        vstd::arithmetic::power::lemma_pow1(b2 as int);
        vstd::arithmetic::power::lemma_pow_adds(b1 as int, 1, (e - 1) as nat);
        vstd::arithmetic::power::lemma_pow_adds(b2 as int, 1, (e - 1) as nat);
        assert(pow(b1 as int, e) == (b1 as int) * pow(b1 as int, (e - 1) as nat));
        assert(pow(b2 as int, e) == (b2 as int) * pow(b2 as int, (e - 1) as nat));
        assert((b1 as int) * pow(b1 as int, (e - 1) as nat) <= (b2 as int) * pow(
            b2 as int,
            (e - 1) as nat,
        ) && 0 < (b1 as int) * pow(b1 as int, (e - 1) as nat)) by (nonlinear_arith)
            requires
                1 <= b1 <= b2,
                0 < pow(b1 as int, (e - 1) as nat) <= pow(b2 as int, (e - 1) as nat),
        ;
    }
}

/// A magnitude below two to the sixty-fourth holds at most sixty-three
/// factors of any fixed prime.
pub proof fn lemma_ext_count_le(p: nat, m: nat)
    requires
        p >= 2,
        m < 0x10000000000000000,
    ensures
        ext_count(p, m) <= 63,
{
    if m >= 1 {
        lemma_ext(p, m);
        let c: nat = ext_count(p, m);
        if c > 63 {
            vstd::arithmetic::power::lemma_pow_positive(p as int, c);
            assert(pow(p as int, c) <= m as int) by (nonlinear_arith)
                requires
                    m as int == pow(p as int, c) * (ext_rest(p, m) as int),
                    ext_rest(p, m) >= 1,
                    pow(p as int, c) > 0,
            ;
            lemma_pow_base_le(2, p, c);
            vstd::arithmetic::power::lemma_pow_increases(2, 64, c);
            vstd::arithmetic::power2::lemma_pow2(64);
            vstd::arithmetic::power2::lemma2_to64_rest();
        }
    }
}

/// Every exponent extracted from a 64-bit magnitude is at most
/// sixty-three.
pub proof fn lemma_cnt_at_le(m: nat, i: int)
    requires
        m < 0x10000000000000000,
        0 <= i < 8,
    ensures
        cnt_at(m, i) <= 63,
{
    lemma_rest_after_le(m, i);
    lemma_ext_count_le(prime_val(i) as nat, rest_after(m, i));
}

/// One step of a power: raising the exponent by one multiplies by the
/// base once.
pub proof fn lemma_pow_unfold(p: int, k: nat)
    ensures
        pow(p, k + 1) == p * pow(p, k),
{
    vstd::arithmetic::power::lemma_pow1(p);
    vstd::arithmetic::power::lemma_pow_adds(p, 1, k);
}

/// An excess power product is always at least one.
pub proof fn lemma_excess_prod_pos(e: Seq<int>, m: Seq<int>, i: int)
    ensures
        excess_prod_from(e, m, i) >= 1,
    decreases 8 - i,
{
    if 0 <= i < 8 {
        lemma_excess_prod_pos(e, m, i + 1);
        vstd::arithmetic::power::lemma_pow_positive(prime_val(i), (e[i] - m[i]) as nat);
        assert(pow(prime_val(i), (e[i] - m[i]) as nat) * excess_prod_from(e, m, i + 1) >= 1)
            by (nonlinear_arith)
            requires
                pow(prime_val(i), (e[i] - m[i]) as nat) >= 1,
                excess_prod_from(e, m, i + 1) >= 1,
        ;
    }
}

/// Extraction leaves a remainder with no factor `p` in it.
pub proof fn lemma_ext_rest_ndiv(p: nat, m: nat)
    requires
        p >= 2,
        m >= 1,
    ensures
        ext_rest(p, m) % p != 0,
    decreases m,
{
    if m % p == 0 {
        crate::gcd::lemma_divides_mod(p, m);
        crate::gcd::lemma_div_exact(m, p);
        vstd::arithmetic::div_mod::lemma_div_decreases(m as int, p as int);
        lemma_ext_rest_ndiv(p, m / p);
    }
}

/// Once the first fixed prime has been extracted, every later residue is
/// odd.
pub proof fn lemma_rest_after_odd(m: nat, i: int)
    requires
        m >= 1,
        1 <= i <= 8,
    ensures
        rest_after(m, i) % 2 != 0,
    decreases i,
{
    if i == 1 {
        lemma_ext_rest_ndiv(2, m);
    } else {
        lemma_rest_after_odd(m, i - 1);
        lemma_rest_after_le(m, i - 1);
        let prev: nat = rest_after(m, i - 1);
        let p: nat = prime_val(i - 1) as nat;
        lemma_ext(p, prev);
        let cur: nat = ext_rest(p, prev);
        if cur % 2 == 0 {
            crate::gcd::lemma_divides_mod(2, cur);
            crate::gcd::lemma_div_exact(cur, 2);
            assert(prev as int == (pow(p as int, ext_count(p, prev)) * ((cur / 2) as int)) * 2)
                by (nonlinear_arith)
                requires
                    prev as int == pow(p as int, ext_count(p, prev)) * (cur as int),
                    cur as int == ((cur / 2) as int) * 2,
            ;
            vstd::arithmetic::div_mod::lemma_mod_multiples_basic(
                pow(p as int, ext_count(p, prev)) * ((cur / 2) as int),
                2,
            );
        }
    }
}

/// The representation of the value one: every exponent zero, residual
/// 1/1.
pub open spec fn one_view() -> FracView {
    FracView { exps: Seq::new(8, |i: int| 0), num: 1, den: 1 }
}

/// An exact rational: eight fixed prime exponents plus a residual pair in
/// lowest terms.  See the module documentation for the invariants.
#[derive(Clone, Debug)]
pub struct Fraction {
    primfacts: Vec<i64>,
    numerat: i64,
    denominat: u64,
}

impl View for Fraction {
    type V = FracView;

    closed spec fn view(&self) -> FracView {
        FracView {
            exps: self.primfacts@.map_values(|e: i64| e as int),
            num: self.numerat as int,
            den: self.denominat as int,
        }
    }
}

impl Fraction {
    /// The canonical zero: every exponent zero, residual 0/1.
    pub fn zero() -> (r: Fraction)
        ensures
            r@ == zero_view(),
            wf(r@),
    {
        let mut primfacts: Vec<i64> = Vec::new();
        let mut i: usize = 0;
        while i < 8
            invariant
                i <= 8,
                primfacts@.len() == i,
                forall|j: int| 0 <= j < i ==> #[trigger] primfacts@[j] == 0i64,
            decreases 8 - i,
        {
            primfacts.push(0);
            i += 1;
        }
        let r = Fraction { primfacts, numerat: 0, denominat: 1 };
        proof {
            assert(r@.exps =~= zero_view().exps);
            assert(r@ =~= zero_view());
            assert(gcd(1, 0) == 1);
            assert(gcd(0, 1) == 1);
        }
        r
    }

    /// Reduce a widened residual pair to lowest terms in place.  This is
    /// the shared core of every normalization pass; it never fails, since
    /// reduction only shrinks magnitudes.
    fn normalize_inner(numerat: &mut i128, denominat: &mut u128)
        requires
            *old(denominat) > 0,
        ensures
            *final(numerat) == red_num(*old(numerat) as int, *old(denominat) as int),
            *final(denominat) as int == red_den(*old(numerat) as int, *old(denominat) as int),
            *final(denominat) > 0,
            gcd(abs(*final(numerat) as int) as nat, *final(denominat) as nat) == 1,
            abs(*final(numerat) as int) <= abs(*old(numerat) as int),
            *final(denominat) <= *old(denominat),
            *final(numerat) == 0 <==> *old(numerat) == 0,
    {
        let neg: bool = *numerat < 0;
        let mag: u128 = if *numerat >= 0 {
            *numerat as u128
        } else {
            ((-(*numerat + 1)) as u128) + 1
        };
        proof {
            assert(mag == abs(*numerat as int));
        }
        let g: u128 = crate::gcd::euclid(mag, *denominat);
        proof {
            crate::gcd::lemma_gcd_pos(mag as nat, *denominat as nat);
            crate::gcd::lemma_gcd_divides(mag as nat, *denominat as nat);
            crate::gcd::lemma_div_exact(mag as nat, g as nat);
            crate::gcd::lemma_div_exact(*denominat as nat, g as nat);
            crate::gcd::lemma_gcd_reduce_coprime(mag as nat, *denominat as nat);
            assert(mag / g <= mag && *denominat / g <= *denominat) by (nonlinear_arith)
                requires
                    g >= 1,
                    mag >= 0,
                    *denominat >= 0,
            ;
        }
        let new_mag: u128 = mag / g;
        let new_den: u128 = *denominat / g;
        *denominat = new_den;
        if neg {
            *numerat = -((new_mag - 1) as i128) - 1;
        } else {
            *numerat = new_mag as i128;
        }
    }

    /// Bring the whole fraction back to canonical form: collapse to the
    /// canonical zero when the residual numerator is zero, otherwise reduce
    /// the residual pair to lowest terms.
    fn normalize(&mut self)
        requires
            old(self)@.exps.len() == 8,
            old(self)@.den > 0,
        ensures
            final(self)@ == norm_res(old(self)@.exps, old(self)@.num, old(self)@.den),
            wf(final(self)@),
    {
        if self.numerat == 0 {
            *self = Fraction::zero();
        } else {
            let mut n: i128 = self.numerat as i128;
            let mut d: u128 = self.denominat as u128;
            Self::normalize_inner(&mut n, &mut d);
            proof {
                assert(abs(n as int) <= abs(self.numerat as int));
            }
            self.numerat = n as i64;
            self.denominat = d as u64;
            proof {
                assert(self@ =~= norm_res(old(self)@.exps, old(self)@.num, old(self)@.den));
            }
        }
    }

    /// Multiply in place by a signed 64-bit integer.  A zero scalar
    /// collapses the fraction to canonical zero; otherwise the scalar's
    /// sign is folded into the residual numerator, every fixed-prime
    /// factor of its magnitude raises the matching exponent, the coprime
    /// remainder multiplies the residual numerator, and the result is
    /// normalized.  Fails with `Overflow`, leaving the fraction unchanged,
    /// when a reduced result no longer fits the storage fields.
    pub fn mul_assign(&mut self, rhs: i64) -> (r: Result<(), FracError>)
        requires
            wf(old(self)@),
        ensures
            r is Ok <==> scalar_mul_ok(old(self)@, rhs as int),
            r is Ok ==> final(self)@ == scalar_mul_view(old(self)@, rhs as int) && wf(
                final(self)@,
            ),
            r is Err ==> *final(self) == *old(self) && r == Err::<(), FracError>(
                FracError::Overflow,
            ),
    {
        let ghost v0: FracView = self@;
        if rhs == 0 {
            *self = Fraction::zero();
            return Ok(());
        }
        let neg: bool = rhs < 0;
        let mut m: u64 = if rhs >= 0 {
            rhs as u64
        } else {
            ((-(rhs + 1)) as u64) + 1
        };
        proof {
            assert(m == abs(rhs as int));
        }
        let ghost m0: nat = m as nat;
        if self.numerat == 0 {
            // canonical zero absorbs every scalar, and no width is left
            proof {
                assert forall|i: int| 0 <= i < 8 implies fits_i64(
                    #[trigger] smul_exps(v0, rhs as int)[i],
                ) by {
                    lemma_cnt_at_le(m0, i);
                }
                assert(smul_num0(v0, rhs as int) == 0) by (nonlinear_arith)
                    requires
                        v0.num == 0,
                        smul_num0(v0, rhs as int) == sgn_of(rhs as int) * v0.num * (rest_after(
                            abs(rhs as int) as nat,
                            8,
                        ) as int),
                ;
                lemma_red_zero(v0.den as nat);
                assert(scalar_mul_view(v0, rhs as int) == zero_view());
            }
            return Ok(());
        }
        let mut newexps: Vec<i64> = Vec::new();
        let mut i: usize = 0;
        while i < 8
            invariant
                wf(v0),
                *self == *old(self),
                self@ == v0,
                v0.num != 0,
                rhs != 0,
                m0 == abs(rhs as int),
                1 <= m0 < 0x10000000000000000,
                i <= 8,
                newexps@.len() == i,
                m >= 1,
                m as nat == rest_after(m0, i as int),
                forall|j: int|
                    0 <= j < i ==> #[trigger] newexps@[j] as int == smul_exps(v0, rhs as int)[j],
            decreases 8 - i,
        {
            let k: u64 = prime_at(i);
            let ghost m_in: nat = m as nat;
            let mut c: u32 = 0;
            while m % k == 0
                invariant
                    2 <= k <= 19,
                    k as int == prime_val(i as int),
                    m >= 1,
                    m_in < 0x10000000000000000,
                    ext_count(k as nat, m_in) == c + ext_count(k as nat, m as nat),
                    ext_rest(k as nat, m_in) == ext_rest(k as nat, m as nat),
                    m as nat <= m_in,
                decreases m,
            {
                proof {
                    crate::gcd::lemma_divides_mod(k as nat, m as nat);
                    crate::gcd::lemma_div_exact(m as nat, k as nat);
                    crate::gcd::lemma_divides_le(k as int, m as int);
                    lemma_ext_count_le(k as nat, m_in);
                    lemma_ext_count_le(k as nat, m as nat);
                }
                m = m / k;
                c = c + 1;
            }
            proof {
                assert(c as nat == cnt_at(m0, i as int));
                assert(m as nat == rest_after(m0, i as int + 1));
            }
            let e_old: i64 = self.primfacts[i];
            let e_new: i128 = (e_old as i128) + (c as i128);
            if e_new > (i64::MAX as i128) {
                proof {
                    assert(!fits_i64(smul_exps(v0, rhs as int)[i as int]));
                }
                return Err(FracError::Overflow);
            }
            newexps.push(e_new as i64);
            i += 1;
        }
        let n128: i128 = if neg {
            -(self.numerat as i128)
        } else {
            self.numerat as i128
        };
        proof {
            assert(n128 == sgn_of(rhs as int) * v0.num) by (nonlinear_arith)
                requires
                    v0.num == self.numerat as int,
                    rhs != 0,
                    neg == (rhs < 0),
                    n128 == if neg {
                        -(self.numerat as int)
                    } else {
                        self.numerat as int
                    },
                    sgn_of(rhs as int) == if rhs < 0 {
                        -1int
                    } else {
                        1int
                    },
            ;
            lemma_rest_after_le(m0, 8);
            assert(-0x8000000000000000 <= n128 <= 0x8000000000000000);
            assert((n128 * (m as i128)) == smul_num0(v0, rhs as int) && -0x40000000000000000000000000000000
                <= n128 * (m as i128) <= 0x40000000000000000000000000000000 && (n128 * (
            m as i128)) != 0) by (nonlinear_arith)
                requires
                    -0x8000000000000000 <= n128 <= 0x8000000000000000,
                    n128 != 0,
                    1 <= m <= 0x8000000000000000,
                    n128 == sgn_of(rhs as int) * v0.num,
                    smul_num0(v0, rhs as int) == sgn_of(rhs as int) * v0.num * (rest_after(
                        abs(rhs as int) as nat,
                        8,
                    ) as int),
                    m as nat == rest_after(abs(rhs as int) as nat, 8),
            ;
        }
        let mut num0: i128 = n128 * (m as i128);
        let mut den0: u128 = self.denominat as u128;
        Self::normalize_inner(&mut num0, &mut den0);
        if num0 > (i64::MAX as i128) || num0 < (i64::MIN as i128) {
            return Err(FracError::Overflow);
        }
        self.primfacts = newexps;
        self.numerat = num0 as i64;
        self.denominat = den0 as u64;
        proof {
            assert(self@.exps =~= smul_exps(v0, rhs as int));
            assert(self@ =~= scalar_mul_view(v0, rhs as int));
        }
        Ok(())
    }

    /// Divide in place by a nonzero signed 64-bit integer.  A zero scalar
    /// is rejected with `DivideByZero` before anything changes.  Otherwise
    /// the scalar's sign is folded into the residual numerator, every
    /// fixed-prime factor of its magnitude lowers the matching exponent,
    /// the coprime remainder multiplies the residual denominator, and the
    /// result is normalized.  Fails with `Overflow`, leaving the fraction
    /// unchanged, when a reduced result no longer fits the storage fields.
    pub fn div_assign(&mut self, rhs: i64) -> (r: Result<(), FracError>)
        requires
            wf(old(self)@),
        ensures
            r is Ok <==> rhs != 0 && scalar_div_ok(old(self)@, rhs as int),
            r is Ok ==> final(self)@ == scalar_div_view(old(self)@, rhs as int) && wf(
                final(self)@,
            ),
            r is Err ==> *final(self) == *old(self),
            rhs == 0 ==> r == Err::<(), FracError>(FracError::DivideByZero),
            rhs != 0 && r is Err ==> r == Err::<(), FracError>(FracError::Overflow),
    {
        let ghost v0: FracView = self@;
        if rhs == 0 {
            return Err(FracError::DivideByZero);
        }
        let neg: bool = rhs < 0;
        let mut m: u64 = if rhs >= 0 {
            rhs as u64
        } else {
            ((-(rhs + 1)) as u64) + 1
        };
        proof {
            assert(m == abs(rhs as int));
        }
        let ghost m0: nat = m as nat;
        if self.numerat == 0 {
            // canonical zero divided by any nonzero scalar stays zero
            proof {
                assert forall|i: int| 0 <= i < 8 implies fits_i64(
                    #[trigger] sdiv_exps(v0, rhs as int)[i],
                ) by {
                    lemma_cnt_at_le(m0, i);
                }
                assert(sgn_of(rhs as int) * v0.num == 0) by (nonlinear_arith)
                    requires
                        v0.num == 0,
                ;
                lemma_rest_after_le(m0, 8);
                assert(sdiv_den0(v0, rhs as int) >= 1 && sdiv_den0(v0, rhs as int)
                    == v0.den * (rest_after(m0, 8) as int)) by (nonlinear_arith)
                    requires
                        v0.den >= 1,
                        rest_after(abs(rhs as int) as nat, 8) >= 1,
                        m0 == abs(rhs as int),
                        sdiv_den0(v0, rhs as int) == v0.den * (rest_after(
                            abs(rhs as int) as nat,
                            8,
                        ) as int),
                ;
                lemma_red_zero(sdiv_den0(v0, rhs as int) as nat);
                assert(scalar_div_view(v0, rhs as int) == zero_view());
            }
            return Ok(());
        }
        let mut newexps: Vec<i64> = Vec::new();
        let mut i: usize = 0;
        while i < 8
            invariant
                wf(v0),
                *self == *old(self),
                self@ == v0,
                v0.num != 0,
                rhs != 0,
                m0 == abs(rhs as int),
                1 <= m0 < 0x10000000000000000,
                i <= 8,
                newexps@.len() == i,
                m >= 1,
                m as nat == rest_after(m0, i as int),
                forall|j: int|
                    0 <= j < i ==> #[trigger] newexps@[j] as int == sdiv_exps(v0, rhs as int)[j],
            decreases 8 - i,
        {
            let k: u64 = prime_at(i);
            let ghost m_in: nat = m as nat;
            let mut c: u32 = 0;
            while m % k == 0
                invariant
                    2 <= k <= 19,
                    k as int == prime_val(i as int),
                    m >= 1,
                    m_in < 0x10000000000000000,
                    ext_count(k as nat, m_in) == c + ext_count(k as nat, m as nat),
                    ext_rest(k as nat, m_in) == ext_rest(k as nat, m as nat),
                    m as nat <= m_in,
                decreases m,
            {
                proof {
                    crate::gcd::lemma_divides_mod(k as nat, m as nat);
                    crate::gcd::lemma_div_exact(m as nat, k as nat);
                    crate::gcd::lemma_divides_le(k as int, m as int);
                    lemma_ext_count_le(k as nat, m_in);
                    lemma_ext_count_le(k as nat, m as nat);
                }
                m = m / k;
                c = c + 1;
            }
            proof {
                assert(c as nat == cnt_at(m0, i as int));
                assert(m as nat == rest_after(m0, i as int + 1));
            }
            let e_old: i64 = self.primfacts[i];
            let e_new: i128 = (e_old as i128) - (c as i128);
            if e_new < (i64::MIN as i128) {
                proof {
                    assert(!fits_i64(sdiv_exps(v0, rhs as int)[i as int]));
                }
                return Err(FracError::Overflow);
            }
            newexps.push(e_new as i64);
            i += 1;
        }
        let n128: i128 = if neg {
            -(self.numerat as i128)
        } else {
            self.numerat as i128
        };
        proof {
            assert(n128 == sgn_of(rhs as int) * v0.num && n128 != 0) by (nonlinear_arith)
                requires
                    v0.num == self.numerat as int,
                    v0.num != 0,
                    rhs != 0,
                    neg == (rhs < 0),
                    n128 == if neg {
                        -(self.numerat as int)
                    } else {
                        self.numerat as int
                    },
                    sgn_of(rhs as int) == if rhs < 0 {
                        -1int
                    } else {
                        1int
                    },
            ;
            lemma_rest_after_le(m0, 8);
            assert((self.denominat as u128) * (m as u128) == sdiv_den0(v0, rhs as int)
                && 1 <= (self.denominat as u128) * (m as u128)
                <= 0x80000000000000000000000000000000) by (nonlinear_arith)
                requires
                    1 <= self.denominat <= 0xffffffffffffffff,
                    1 <= m <= 0x8000000000000000,
                    v0.den == self.denominat as int,
                    sdiv_den0(v0, rhs as int) == v0.den * (rest_after(
                        abs(rhs as int) as nat,
                        8,
                    ) as int),
                    m as nat == rest_after(abs(rhs as int) as nat, 8),
            ;
        }
        let mut num0: i128 = n128;
        let mut den0: u128 = (self.denominat as u128) * (m as u128);
        Self::normalize_inner(&mut num0, &mut den0);
        if num0 > (i64::MAX as i128) || num0 < (i64::MIN as i128) {
            return Err(FracError::Overflow);
        }
        if den0 > (u64::MAX as u128) {
            return Err(FracError::Overflow);
        }
        self.primfacts = newexps;
        self.numerat = num0 as i64;
        self.denominat = den0 as u64;
        proof {
            assert(self@.exps =~= sdiv_exps(v0, rhs as int));
            assert(self@ =~= scalar_div_view(v0, rhs as int));
        }
        Ok(())
    }

    /// Multiply the residual pair by `n2 / d2`.  The pairs are
    /// cross-cancelled before either product is formed, so intermediates
    /// stay bounded by the eventual result's scale, then one more
    /// reduction brings the pair to lowest terms.  Collapses to canonical
    /// zero when the new numerator is zero.  Fails with `Overflow`,
    /// changing nothing, when the reduced pair does not fit the storage
    /// fields.
    fn rest_mul(&mut self, n2: i128, d2: i128) -> (r: Result<(), FracError>)
        requires
            old(self)@.den > 0,
            -0xffffffffffffffff <= n2 <= 0xffffffffffffffff,
            -0xffffffffffffffff <= d2 <= 0xffffffffffffffff,
            d2 != 0,
        ensures
            r is Ok <==> rest_mul_ok(old(self)@.num * n2, old(self)@.den * d2),
            r is Ok ==> final(self)@ == norm_res(
                old(self)@.exps,
                old(self)@.num * n2,
                old(self)@.den * d2,
            ),
            r is Ok ==> (final(self)@.num == 0 <==> old(self)@.num * n2 == 0),
            r is Ok ==> 0 < final(self)@.den <= u64::MAX && gcd(
                abs(final(self)@.num) as nat,
                final(self)@.den as nat,
            ) == 1 && (final(self)@.num == 0 ==> final(self)@ == zero_view()),
            r is Err ==> *final(self) == *old(self) && r == Err::<(), FracError>(
                FracError::Overflow,
            ),
    {
        let ghost v0: FracView = self@;
        let ghost nn: int = v0.num * n2;
        let ghost dd: int = v0.den * d2;
        let n1: i128 = self.numerat as i128;
        let d1u: u128 = self.denominat as u128;
        let neg1: bool = n1 < 0;
        let m1: u128 = if neg1 {
            (-n1) as u128
        } else {
            n1 as u128
        };
        let neg2: bool = n2 < 0;
        let m2: u128 = if neg2 {
            (-n2) as u128
        } else {
            n2 as u128
        };
        let negd: bool = d2 < 0;
        let md2: u128 = if negd {
            (-d2) as u128
        } else {
            d2 as u128
        };
        proof {
            assert(m1 == abs(n1 as int) && m2 == abs(n2 as int) && md2 == abs(d2 as int));
            assert((neg1 != neg2 ==> nn == -((m1 * m2) as int)) && (neg1 == neg2 ==> nn == (m1
                * m2) as int) && (negd ==> dd == -((d1u * md2) as int)) && (!negd ==> dd == (d1u
                * md2) as int)) by (nonlinear_arith)
                requires
                    nn == (n1 as int) * n2,
                    dd == (d1u as int) * d2,
                    neg1 ==> n1 as int == -(m1 as int),
                    !neg1 ==> n1 as int == m1 as int,
                    neg2 ==> n2 as int == -(m2 as int),
                    !neg2 ==> n2 as int == m2 as int,
                    negd ==> d2 as int == -(md2 as int),
                    !negd ==> d2 as int == md2 as int,
            ;
            assert(abs(nn) == m1 * m2);
            assert(abs(dd) == d1u * md2);
            assert(dd != 0 && (dd < 0 <==> negd)) by (nonlinear_arith)
                requires
                    dd == (d1u as int) * d2,
                    d1u >= 1,
                    d2 != 0,
                    negd == (d2 < 0),
            ;
        }
        let g1: u128 = crate::gcd::euclid(m1, md2);
        let g2: u128 = crate::gcd::euclid(m2, d1u);
        proof {
            crate::gcd::lemma_gcd_pos(m1 as nat, md2 as nat);
            crate::gcd::lemma_gcd_divides(m1 as nat, md2 as nat);
            crate::gcd::lemma_div_exact(m1 as nat, g1 as nat);
            crate::gcd::lemma_div_exact(md2 as nat, g1 as nat);
            crate::gcd::lemma_gcd_pos(m2 as nat, d1u as nat);
            crate::gcd::lemma_gcd_divides(m2 as nat, d1u as nat);
            crate::gcd::lemma_div_exact(m2 as nat, g2 as nat);
            crate::gcd::lemma_div_exact(d1u as nat, g2 as nat);
        }
        let m1r: u128 = m1 / g1;
        let md2r: u128 = md2 / g1;
        let m2r: u128 = m2 / g2;
        let d1r: u128 = d1u / g2;
        proof {
            assert(m1r <= m1 && md2r <= md2 && m2r <= m2 && d1r <= d1u) by (nonlinear_arith)
                requires
                    m1 == m1r * g1,
                    md2 == md2r * g1,
                    m2 == m2r * g2,
                    d1u == d1r * g2,
                    g1 >= 1,
                    g2 >= 1,
                    m1r >= 0,
                    md2r >= 0,
                    m2r >= 0,
                    d1r >= 0,
            ;
            assert(m1r * m2r <= 0x80000000000000000000000000000000 && d1r * md2r
                < 0x100000000000000000000000000000000 && md2r >= 1 && d1r >= 1) by (nonlinear_arith)
                requires
                    0 <= m1r <= 0x8000000000000000,
                    0 <= m2r <= 0xffffffffffffffff,
                    0 <= d1r <= 0xffffffffffffffff,
                    0 <= md2r <= 0xffffffffffffffff,
                    md2 == md2r * g1,
                    d1u == d1r * g2,
                    md2 >= 1,
                    d1u >= 1,
                    g1 >= 1,
                    g2 >= 1,
            ;
        }
        let nm: u128 = m1r * m2r;
        let dm: u128 = d1r * md2r;
        proof {
            assert(dm >= 1) by (nonlinear_arith)
                requires
                    d1r >= 1,
                    md2r >= 1,
                    dm == d1r * md2r,
            ;
        }
        let g3: u128 = crate::gcd::euclid(nm, dm);
        proof {
            crate::gcd::lemma_gcd_pos(nm as nat, dm as nat);
            crate::gcd::lemma_gcd_divides(nm as nat, dm as nat);
            crate::gcd::lemma_div_exact(nm as nat, g3 as nat);
            crate::gcd::lemma_div_exact(dm as nat, g3 as nat);
        }
        let nmr: u128 = nm / g3;
        let dmr: u128 = dm / g3;
        proof {
            let k: nat = ((g1 as int) * (g2 as int)) as nat;
            assert((m1 * m2) as int == (nm as int) * (k as int) && (d1u * md2) as int == (dm as int)
                * (k as int) && k >= 1) by (nonlinear_arith)
                requires
                    m1 == m1r * g1,
                    md2 == md2r * g1,
                    m2 == m2r * g2,
                    d1u == d1r * g2,
                    nm == m1r * m2r,
                    dm == d1r * md2r,
                    g1 >= 1,
                    g2 >= 1,
                    k as int == (g1 as int) * (g2 as int),
            ;
            assert(crate::gcd::divides(k as int, (m1 * m2) as int));
            assert(crate::gcd::divides(k as int, (d1u * md2) as int));
            vstd::arithmetic::div_mod::lemma_fundamental_div_mod_converse(
                (m1 * m2) as int,
                k as int,
                nm as int,
                0,
            );
            vstd::arithmetic::div_mod::lemma_fundamental_div_mod_converse(
                (d1u * md2) as int,
                k as int,
                dm as int,
                0,
            );
            crate::gcd::lemma_red_cancel((m1 * m2) as nat, (d1u * md2) as nat, k);
            assert(nmr as int == red_mag_num(abs(nn) as nat, abs(dd) as nat));
            assert(dmr as int == red_mag_den(abs(nn) as nat, abs(dd) as nat));
            crate::gcd::lemma_gcd_reduce_coprime(nm as nat, dm as nat);
        }
        if nmr == 0 {
            proof {
                assert(nm == 0);
                assert(abs(nn) == 0) by (nonlinear_arith)
                    requires
                        (m1 * m2) as int == (nm as int) * (((g1 as int) * (g2 as int)) as nat
                            as int),
                        nm == 0,
                        abs(nn) == m1 * m2,
                ;
                lemma_red_zero_any(dd);
            }
            *self = Fraction::zero();
            return Ok(());
        }
        proof {
            assert(nn != 0) by (nonlinear_arith)
                requires
                    abs(nn) == m1 * m2,
                    (m1 * m2) as int == (nm as int) * (((g1 as int) * (g2 as int)) as nat as int),
                    nm == nmr * g3,
                    nmr >= 1,
                    g3 >= 1,
                    ((g1 as int) * (g2 as int)) as nat >= 1,
                    nn < 0 ==> abs(nn) == -nn,
                    nn >= 0 ==> abs(nn) == nn,
            ;
            assert(nn < 0 <==> (neg1 != neg2));
        }
        let neg_res: bool = (neg1 != neg2) != negd;
        proof {
            assert(((nn < 0) == (dd < 0)) <==> !neg_res);
            if neg_res {
                assert(red_num(nn, dd) == -(nmr as int));
            } else {
                assert(red_num(nn, dd) == nmr as int);
            }
            assert(red_den(nn, dd) == dmr as int);
        }
        let new_num: i64 = if neg_res {
            if nmr > 0x8000000000000000u128 {
                proof {
                    assert(!fits_i64(red_num(nn, dd)));
                }
                return Err(FracError::Overflow);
            }
            -((nmr - 1) as i64) - 1
        } else {
            if nmr > 0x7fffffffffffffffu128 {
                proof {
                    assert(!fits_i64(red_num(nn, dd)));
                }
                return Err(FracError::Overflow);
            }
            nmr as i64
        };
        if dmr > 0xffffffffffffffffu128 {
            proof {
                assert(!fits_u64(red_den(nn, dd)));
            }
            return Err(FracError::Overflow);
        }
        self.numerat = new_num;
        self.denominat = dmr as u64;
        proof {
            assert(abs(new_num as int) == nmr as int);
            assert(self@ =~= norm_res(v0.exps, nn, dd));
        }
        Ok(())
    }

    /// Multiply in place by another fraction: the prime exponents add
    /// elementwise, and the residual pairs combine through the
    /// cross-cancelling residual multiply.  Fails with `Overflow`, leaving
    /// the fraction unchanged, when an exponent sum or the reduced
    /// residual pair no longer fits the storage fields.
    pub fn mul_assign_frac(&mut self, rhs: &Fraction) -> (r: Result<(), FracError>)
        requires
            wf(old(self)@),
            wf(rhs@),
        ensures
            r is Ok <==> frac_mul_ok(old(self)@, rhs@),
            r is Ok ==> final(self)@ == frac_mul_view(old(self)@, rhs@) && wf(final(self)@),
            r is Err ==> *final(self) == *old(self) && r == Err::<(), FracError>(
                FracError::Overflow,
            ),
    {
        let ghost a0: FracView = self@;
        let ghost b: FracView = rhs@;
        let mut newexps: Vec<i64> = Vec::new();
        let mut i: usize = 0;
        while i < 8
            invariant
                wf(a0),
                wf(b),
                *self == *old(self),
                self@ == a0,
                rhs@ == b,
                i <= 8,
                newexps@.len() == i,
                forall|j: int|
                    0 <= j < i ==> #[trigger] newexps@[j] as int == fmul_exps(a0, b)[j],
            decreases 8 - i,
        {
            let s: i128 = (self.primfacts[i] as i128) + (rhs.primfacts[i] as i128);
            if s > (i64::MAX as i128) || s < (i64::MIN as i128) {
                proof {
                    assert(!fits_i64(fmul_exps(a0, b)[i as int]));
                }
                return Err(FracError::Overflow);
            }
            newexps.push(s as i64);
            i += 1;
        }
        let rn: i128 = rhs.numerat as i128;
        let rd: i128 = rhs.denominat as i128;
        match self.rest_mul(rn, rd) {
            Err(e) => {
                return Err(e);
            },
            Ok(()) => {},
        }
        if self.numerat != 0 {
            self.primfacts = newexps;
        }
        proof {
            assert forall|j: int| 0 <= j < 8 implies fits_i64(#[trigger] fmul_exps(a0, b)[j]) by {
                assert(newexps@[j] as int == fmul_exps(a0, b)[j]);
            }
            assert(self@ =~= frac_mul_view(a0, b));
        }
        Ok(())
    }

    /// Divide in place by another fraction: rejected with `DivideByZero`
    /// before anything changes when the divisor is zero; otherwise the
    /// prime exponents subtract elementwise and the residual pair is
    /// multiplied by the reciprocal of the divisor's residual pair.  Fails
    /// with `Overflow`, leaving the fraction unchanged, when an exponent
    /// difference or the reduced residual pair no longer fits the storage
    /// fields.
    pub fn div_assign_frac(&mut self, rhs: &Fraction) -> (r: Result<(), FracError>)
        requires
            wf(old(self)@),
            wf(rhs@),
        ensures
            rhs@.num == 0 ==> r == Err::<(), FracError>(FracError::DivideByZero) && *final(self)
                == *old(self),
            rhs@.num != 0 ==> (r is Ok <==> frac_div_ok(old(self)@, rhs@)),
            r is Ok ==> final(self)@ == frac_div_view(old(self)@, rhs@) && wf(final(self)@),
            r is Err ==> *final(self) == *old(self),
            rhs@.num != 0 && r is Err ==> r == Err::<(), FracError>(FracError::Overflow),
    {
        let ghost a0: FracView = self@;
        let ghost b: FracView = rhs@;
        if rhs.numerat == 0 {
            return Err(FracError::DivideByZero);
        }
        let mut newexps: Vec<i64> = Vec::new();
        let mut i: usize = 0;
        while i < 8
            invariant
                wf(a0),
                wf(b),
                *self == *old(self),
                self@ == a0,
                rhs@ == b,
                i <= 8,
                newexps@.len() == i,
                forall|j: int|
                    0 <= j < i ==> #[trigger] newexps@[j] as int == fdiv_exps(a0, b)[j],
            decreases 8 - i,
        {
            let s: i128 = (self.primfacts[i] as i128) - (rhs.primfacts[i] as i128);
            if s > (i64::MAX as i128) || s < (i64::MIN as i128) {
                proof {
                    assert(!fits_i64(fdiv_exps(a0, b)[i as int]));
                }
                return Err(FracError::Overflow);
            }
            newexps.push(s as i64);
            i += 1;
        }
        let rn: i128 = rhs.denominat as i128;
        let rd: i128 = rhs.numerat as i128;
        match self.rest_mul(rn, rd) {
            Err(e) => {
                return Err(e);
            },
            Ok(()) => {},
        }
        if self.numerat != 0 {
            self.primfacts = newexps;
        }
        proof {
            assert forall|j: int| 0 <= j < 8 implies fits_i64(#[trigger] fdiv_exps(a0, b)[j]) by {
                assert(newexps@[j] as int == fdiv_exps(a0, b)[j]);
            }
            assert(self@ =~= frac_div_view(a0, b));
        }
        Ok(())
    }

    /// Compute the product of every prime power by which `exps` exceeds
    /// `mins`, step by step in the widened type; `None` exactly when the
    /// product leaves that type.
    fn excess_pow(exps: &Vec<i64>, mins: &Vec<i64>) -> (r: Option<i128>)
        requires
            exps@.len() == 8,
            mins@.len() == 8,
            forall|j: int| 0 <= j < 8 ==> #[trigger] mins@[j] <= exps@[j],
        ensures
            ({
                let full = excess_prod_from(exps_int(exps@), exps_int(mins@), 0);
                &&& (r matches Some(v) ==> v as int == full && v >= 1)
                &&& (r is None ==> full > i128::MAX)
            }),
    {
        let ghost es: Seq<int> = exps_int(exps@);
        let ghost ms: Seq<int> = exps_int(mins@);
        let ghost full: int = excess_prod_from(es, ms, 0);
        let mut acc: i128 = 1;
        let mut i: usize = 0;
        while i < 8
            invariant
                exps@.len() == 8,
                mins@.len() == 8,
                forall|j: int| 0 <= j < 8 ==> #[trigger] mins@[j] <= exps@[j],
                es == exps_int(exps@),
                ms == exps_int(mins@),
                full == excess_prod_from(es, ms, 0),
                i <= 8,
                acc >= 1,
                acc * excess_prod_from(es, ms, i as int) == full,
            decreases 8 - i,
        {
            let p: u64 = prime_at(i);
            let e_hi: i64 = exps[i];
            let e_lo: i64 = mins[i];
            let d: u64 = ((e_hi as i128) - (e_lo as i128)) as u64;
            proof {
                assert(d as int == es[i as int] - ms[i as int]);
                lemma_excess_prod_pos(es, ms, i as int + 1);
            }
            proof {
                assert(excess_prod_from(es, ms, i as int) == pow(p as int, d as nat)
                    * excess_prod_from(es, ms, i as int + 1));
                assert(acc * pow(p as int, d as nat) * excess_prod_from(es, ms, i as int + 1)
                    == full) by (nonlinear_arith)
                    requires
                        acc * excess_prod_from(es, ms, i as int) == full,
                        excess_prod_from(es, ms, i as int) == pow(p as int, d as nat)
                            * excess_prod_from(es, ms, i as int + 1),
                ;
            }
            let mut j: u64 = 0;
            while j < d
                invariant
                    i < 8,
                    2 <= p <= 19,
                    p as int == prime_val(i as int),
                    es == exps_int(exps@),
                    ms == exps_int(mins@),
                    full == excess_prod_from(es, ms, 0),
                    excess_prod_from(es, ms, i as int + 1) >= 1,
                    j <= d,
                    acc >= 1,
                    acc * pow(p as int, (d - j) as nat) * excess_prod_from(es, ms, i as int + 1)
                        == full,
                decreases d - j,
            {
                let next: Option<i128> = acc.checked_mul(p as i128);
                match next {
                    None => {
                        proof {
                            vstd::arithmetic::power::lemma_pow_positive(
                                p as int,
                                (d - j - 1) as nat,
                            );
                            lemma_pow_unfold(p as int, (d - j - 1) as nat);
                            assert(full > i128::MAX) by (nonlinear_arith)
                                requires
                                    !(i128::MIN <= acc * (p as int) <= i128::MAX),
                                    acc >= 1,
                                    p >= 2,
                                    pow(p as int, (d - j) as nat) == (p as int) * pow(
                                        p as int,
                                        (d - j - 1) as nat,
                                    ),
                                    pow(p as int, (d - j - 1) as nat) >= 1,
                                    excess_prod_from(es, ms, i as int + 1) >= 1,
                                    acc * pow(p as int, (d - j) as nat) * excess_prod_from(
                                        es,
                                        ms,
                                        i as int + 1,
                                    ) == full,
                            ;
                        }
                        return None;
                    },
                    Some(x) => {
                        proof {
                            vstd::arithmetic::power::lemma_pow_positive(
                                p as int,
                                (d - j - 1) as nat,
                            );
                            lemma_pow_unfold(p as int, (d - j - 1) as nat);
                            assert(x >= 1 && x * pow(p as int, (d - j - 1) as nat)
                                * excess_prod_from(es, ms, i as int + 1) == full)
                                by (nonlinear_arith)
                                requires
                                    x == acc * (p as int),
                                    acc >= 1,
                                    p >= 2,
                                    pow(p as int, (d - j) as nat) == (p as int) * pow(
                                        p as int,
                                        (d - j - 1) as nat,
                                    ),
                                    acc * pow(p as int, (d - j) as nat) * excess_prod_from(
                                        es,
                                        ms,
                                        i as int + 1,
                                    ) == full,
                            ;
                        }
                        acc = x;
                    },
                }
                j += 1;
            }
            proof {
                vstd::arithmetic::power::lemma_pow0(p as int);
                assert(acc * excess_prod_from(es, ms, i as int + 1) == full) by (nonlinear_arith)
                    requires
                        acc * pow(p as int, 0) * excess_prod_from(es, ms, i as int + 1) == full,
                        pow(p as int, 0) == 1,
                ;
            }
            i += 1;
        }
        Some(acc)
    }

    /// Add two fractions into a new one, neither operand changing.  The
    /// common denominator keeps the shared factored part: each exponent of
    /// the result is the elementwise minimum, each residual numerator is
    /// scaled by the other denominator's cofactor and by its own excess
    /// prime powers, and the scaled numerators are summed over the product
    /// denominator.  Fails with `Overflow` when an intermediate leaves the
    /// widened type or the reduced result no longer fits the storage
    /// fields.
    pub fn add(&self, rhs: &Fraction) -> (r: Result<Fraction, FracError>)
        requires
            wf(self@),
            wf(rhs@),
        ensures
            r is Ok <==> add_ok(self@, rhs@),
            r matches Ok(f) ==> f@ == add_view(self@, rhs@) && wf(f@),
            r is Err ==> r == Err::<Fraction, FracError>(FracError::Overflow),
    {
        let ghost a: FracView = self@;
        let ghost b: FracView = rhs@;
        let rft128: u128 = crate::gcd::euclid(self.denominat as u128, rhs.denominat as u128);
        proof {
            crate::gcd::lemma_gcd_le(self.denominat as nat, rhs.denominat as nat);
            crate::gcd::lemma_gcd_divides(self.denominat as nat, rhs.denominat as nat);
        }
        let rft: u64 = rft128 as u64;
        let mut mins: Vec<i64> = Vec::new();
        let mut i: usize = 0;
        while i < 8
            invariant
                self@ == a,
                rhs@ == b,
                wf(a),
                wf(b),
                i <= 8,
                mins@.len() == i,
                forall|j: int| 0 <= j < i ==> #[trigger] mins@[j] as int == min_exps(a, b)[j],
            decreases 8 - i,
        {
            let ea: i64 = self.primfacts[i];
            let eb: i64 = rhs.primfacts[i];
            mins.push(
                if ea <= eb {
                    ea
                } else {
                    eb
                },
            );
            i += 1;
        }
        proof {
            assert(exps_int(mins@) =~= min_exps(a, b));
            assert(exps_int(self.primfacts@) =~= a.exps);
            assert(exps_int(rhs.primfacts@) =~= b.exps);
            assert forall|j: int| 0 <= j < 8 implies #[trigger] mins@[j] <= self.primfacts@[j]
                && mins@[j] <= rhs.primfacts@[j] by {
                assert(a.exps[j] == self.primfacts@[j] as int);
                assert(b.exps[j] == rhs.primfacts@[j] as int);
            }
        }
        let pa: i128 = match Self::excess_pow(&self.primfacts, &mins) {
            None => {
                return Err(FracError::Overflow);
            },
            Some(v) => v,
        };
        let pb: i128 = match Self::excess_pow(&rhs.primfacts, &mins) {
            None => {
                return Err(FracError::Overflow);
            },
            Some(v) => v,
        };
        let bq: u64 = rhs.denominat / rft;
        let aq: u64 = self.denominat / rft;
        proof {
            assert((self.numerat as i128) * (bq as i128) == a.num * (b.den / add_rft(a, b))
                && -0x80000000000000000000000000000000 < (self.numerat as i128) * (bq as i128)
                < 0x80000000000000000000000000000000) by (nonlinear_arith)
                requires
                    -0x8000000000000000 <= self.numerat as int <= 0x7fffffffffffffff,
                    0 <= bq <= 0xffffffffffffffff,
                    bq as int == b.den / add_rft(a, b),
                    a.num == self.numerat as int,
            ;
            assert((rhs.numerat as i128) * (aq as i128) == b.num * (a.den / add_rft(a, b))
                && -0x80000000000000000000000000000000 < (rhs.numerat as i128) * (aq as i128)
                < 0x80000000000000000000000000000000) by (nonlinear_arith)
                requires
                    -0x8000000000000000 <= rhs.numerat as int <= 0x7fffffffffffffff,
                    0 <= aq <= 0xffffffffffffffff,
                    aq as int == a.den / add_rft(a, b),
                    b.num == rhs.numerat as int,
            ;
        }
        let sa0: i128 = (self.numerat as i128) * (bq as i128);
        let sb0: i128 = (rhs.numerat as i128) * (aq as i128);
        let sa: i128 = match sa0.checked_mul(pa) {
            None => {
                return Err(FracError::Overflow);
            },
            Some(v) => v,
        };
        let sb: i128 = match sb0.checked_mul(pb) {
            None => {
                return Err(FracError::Overflow);
            },
            Some(v) => v,
        };
        let num_sum: i128 = match sa.checked_add(sb) {
            None => {
                return Err(FracError::Overflow);
            },
            Some(v) => v,
        };
        proof {
            assert((self.denominat as u128) * (rhs.denominat as u128) == a.den * b.den && 1 <= (
            self.denominat as u128) * (rhs.denominat as u128)
                < 0x100000000000000000000000000000000) by (nonlinear_arith)
                requires
                    1 <= self.denominat <= 0xffffffffffffffff,
                    1 <= rhs.denominat <= 0xffffffffffffffff,
                    a.den == self.denominat as int,
                    b.den == rhs.denominat as int,
            ;
        }
        let den_prod: u128 = (self.denominat as u128) * (rhs.denominat as u128);
        let mut den0: u128 = den_prod / (rft as u128);
        proof {
            assert(den_prod >= rft) by (nonlinear_arith)
                requires
                    den_prod as int == a.den * b.den,
                    a.den >= rft,
                    b.den >= 1,
                    rft >= 1,
            ;
            vstd::arithmetic::div_mod::lemma_div_non_zero(den_prod as int, rft as int);
        }
        let mut num0: i128 = num_sum;
        Self::normalize_inner(&mut num0, &mut den0);
        if num0 > (i64::MAX as i128) || num0 < (i64::MIN as i128) {
            return Err(FracError::Overflow);
        }
        if den0 > (u64::MAX as u128) {
            return Err(FracError::Overflow);
        }
        let mut ret = Fraction { primfacts: mins, numerat: num0 as i64, denominat: den0 as u64 };
        if ret.numerat == 0 {
            ret = Fraction::zero();
        }
        proof {
            assert(ret@ =~= add_view(a, b));
        }
        Ok(ret)
    }

    /// Build the fraction `numerator / denominator`: the value one is
    /// multiplied by the numerator and divided by the denominator, so
    /// every fixed-prime factor of either lands in the exponent table.
    /// Fails with `DivideByZero` exactly when the denominator is zero.
    pub fn from_ratio(numerator: i64, denominator: i64) -> (r: Result<Fraction, FracError>)
        ensures
            r is Ok <==> denominator != 0,
            denominator == 0 ==> r == Err::<Fraction, FracError>(FracError::DivideByZero),
            r matches Ok(f) ==> wf(f@) && f@ == scalar_div_view(
                scalar_mul_view(one_view(), numerator as int),
                denominator as int,
            ),
    {
        if denominator == 0 {
            return Err(FracError::DivideByZero);
        }
        let mut f = Fraction::zero();
        f.numerat = 1;
        proof {
            assert(f@ =~= one_view());
            assert(gcd(1, 1) == gcd(1, 0));
            assert(wf(f@));
        }
        let ghost n: int = numerator as int;
        let ghost d: int = denominator as int;
        proof {
            if n != 0 {
                lemma_from_ratio_mul_ok(n);
            }
        }
        match f.mul_assign(numerator) {
            Err(e) => {
                proof {
                    assert(false);
                }
                return Err(e);
            },
            Ok(()) => {},
        }
        proof {
            lemma_from_ratio_div_ok(n, d);
        }
        match f.div_assign(denominator) {
            Err(e) => {
                proof {
                    assert(false);
                }
                return Err(e);
            },
            Ok(()) => {},
        }
        Ok(f)
    }

    /// The residual numerator; it carries the sign of the whole value.
    pub fn numerator(&self) -> (r: i64)
        ensures
            r as int == self@.num,
    {
        self.numerat
    }

    /// The residual denominator; positive for every well-formed fraction.
    pub fn denominator(&self) -> (r: u64)
        ensures
            r as int == self@.den,
    {
        self.denominat
    }

    /// The exponent tracked for the fixed prime at position `i`.
    pub fn exponent(&self, i: usize) -> (r: i64)
        requires
            wf(self@),
            i < 8,
        ensures
            r as int == self@.exps[i as int],
    {
        self.primfacts[i]
    }

    /// Whether this is the canonical zero.
    pub fn is_zero(&self) -> (r: bool)
        requires
            wf(self@),
        ensures
            r <==> self@ == zero_view(),
    {
        self.numerat == 0
    }
}

impl Default for Fraction {
    /// The canonical zero, as the original's default construction.
    fn default() -> (r: Fraction)
        ensures
            r@ == zero_view(),
            wf(r@),
    {
        Fraction::zero()
    }
}

impl PartialEq for Fraction {
    /// Representation equality: the same exponents and the same residual
    /// pair.
    fn eq(&self, other: &Fraction) -> (r: bool) {
        if self.numerat != other.numerat || self.denominat != other.denominat {
            return false;
        }
        if self.primfacts.len() != other.primfacts.len() {
            proof {
                assert(self@.exps.len() == self.primfacts@.len());
                assert(other@.exps.len() == other.primfacts@.len());
            }
            return false;
        }
        let mut i: usize = 0;
        while i < self.primfacts.len()
            invariant
                i <= self.primfacts@.len(),
                self.primfacts@.len() == other.primfacts@.len(),
                self.numerat == other.numerat,
                self.denominat == other.denominat,
                forall|j: int| 0 <= j < i ==> self.primfacts@[j] == other.primfacts@[j],
            decreases self.primfacts@.len() - i,
        {
            if self.primfacts[i] != other.primfacts[i] {
                proof {
                    assert(self@.exps[i as int] != other@.exps[i as int]);
                }
                return false;
            }
            i += 1;
        }
        proof {
            assert(self.primfacts@ =~= other.primfacts@);
            assert(self@.exps =~= other@.exps);
            assert(self@ =~= other@);
        }
        true
    }
}

impl Eq for Fraction {

}

impl vstd::std_specs::cmp::PartialEqSpecImpl for Fraction {
    open spec fn obeys_eq_spec() -> bool {
        true
    }

    open spec fn eq_spec(&self, other: &Fraction) -> bool {
        self@ == other@
    }
}

/// A nonzero scalar multiplication starting from the value one never
/// leaves the storage widths.
proof fn lemma_from_ratio_mul_ok(n: int)
    requires
        n != 0,
        i64::MIN <= n <= i64::MAX,
    ensures
        scalar_mul_ok(one_view(), n),
{
    let v = one_view();
    let m: nat = abs(n) as nat;
    assert forall|i: int| 0 <= i < 8 implies fits_i64(#[trigger] smul_exps(v, n)[i]) by {
        lemma_cnt_at_le(m, i);
    }
    lemma_rest_after_le(m, 8);
    let rest: int = rest_after(m, 8) as int;
    let x: int = smul_num0(v, n);
    assert(x == sgn_of(n) * rest && (n > 0 ==> 1 <= x <= n) && (n < 0 ==> n <= x <= -1))
        by (nonlinear_arith)
        requires
            x == sgn_of(n) * 1 * rest,
            n > 0 ==> sgn_of(n) == 1,
            n < 0 ==> sgn_of(n) == -1,
            1 <= rest,
            rest <= m,
            n > 0 ==> m == n,
            n < 0 ==> m == -n,
    ;
    lemma_red_one_den(x);
}

/// Reducing against a denominator of one returns the numerator as it is.
proof fn lemma_red_one_den(x: int)
    ensures
        red_num(x, 1) == x,
        red_den(x, 1) == 1,
{
    let a: nat = abs(x) as nat;
    assert(a % 1 == 0) by (nonlinear_arith);
    assert(gcd(a, 1) == gcd(1, 0));
    assert(red_mag_num(a, 1) == a / 1);
    assert(a as int / 1 == a);
    assert(1int / 1 == 1);
}

/// Dividing the product of one and a scalar by a nonzero scalar never
/// leaves the storage widths: the residual magnitudes stay within the
/// extracted remainders, and a remainder can never be the one even value
/// at the edge of the range.
proof fn lemma_from_ratio_div_ok(n: int, d: int)
    requires
        d != 0,
        i64::MIN <= n <= i64::MAX,
        i64::MIN <= d <= i64::MAX,
    ensures
        scalar_div_ok(scalar_mul_view(one_view(), n), d),
{
    let md: nat = abs(d) as nat;
    let v1 = scalar_mul_view(one_view(), n);
    if n == 0 {
        lemma_zero_is_canonical();
        lemma_zero_div_ok(d);
    } else {
        let m: nat = abs(n) as nat;
        let rest: int = rest_after(m, 8) as int;
        lemma_rest_after_le(m, 8);
        lemma_red_one_den(smul_num0(one_view(), n));
        assert(smul_num0(one_view(), n) == sgn_of(n) * rest && smul_num0(one_view(), n) != 0)
            by (nonlinear_arith)
            requires
                smul_num0(one_view(), n) == sgn_of(n) * 1 * rest,
                sgn_of(n) == 1 || sgn_of(n) == -1,
                rest >= 1,
        ;
        assert(v1.num == sgn_of(n) * rest && v1.den == 1 && v1.exps == smul_exps(one_view(), n));
        assert forall|i: int| 0 <= i < 8 implies fits_i64(#[trigger] sdiv_exps(v1, d)[i]) by {
            lemma_cnt_at_le(m, i);
            lemma_cnt_at_le(md, i);
            assert(v1.exps[i] == one_view().exps[i] + cnt_at(m, i));
        }
        lemma_rest_after_odd(m, 8);
        assert(rest != 0x8000000000000000) by (nonlinear_arith)
            requires
                rest_after(m, 8) % 2 != 0,
                rest == rest_after(m, 8) as int,
        ;
        let restd: int = rest_after(md, 8) as int;
        lemma_rest_after_le(md, 8);
        let num0: int = sgn_of(d) * v1.num;
        let den0: int = sdiv_den0(v1, d);
        assert(den0 == restd && 1 <= den0 <= 0x8000000000000000) by (nonlinear_arith)
            requires
                den0 == v1.den * restd,
                v1.den == 1,
                1 <= restd,
                restd <= md,
                md <= 0x8000000000000000,
        ;
        assert(abs(num0) == rest) by (nonlinear_arith)
            requires
                num0 == sgn_of(d) * (sgn_of(n) * rest),
                sgn_of(d) == 1 || sgn_of(d) == -1,
                sgn_of(n) == 1 || sgn_of(n) == -1,
                rest >= 1,
                num0 < 0 ==> abs(num0) == -num0,
                num0 >= 0 ==> abs(num0) == num0,
        ;
        let g: nat = gcd(abs(num0) as nat, abs(den0) as nat);
        crate::gcd::lemma_gcd_pos(abs(num0) as nat, abs(den0) as nat);
        vstd::arithmetic::div_mod::lemma_div_nonincreasing(abs(num0) as int, g as int);
        vstd::arithmetic::div_mod::lemma_div_nonincreasing(abs(den0) as int, g as int);
        assert(red_mag_num(abs(num0) as nat, abs(den0) as nat) <= rest);
        assert(red_mag_den(abs(num0) as nat, abs(den0) as nat) <= den0);
        assert(rest <= 0x7fffffffffffffff);
    }
}

/// The canonical zero is well formed.
proof fn lemma_zero_is_canonical()
    ensures
        wf(zero_view()),
{
    assert(gcd(1, 0) == 1);
    assert(gcd(0, 1) == gcd(1, 0));
}

/// Dividing the canonical zero by a representable nonzero scalar cannot
/// overflow.
proof fn lemma_zero_div_ok(d: int)
    requires
        d != 0,
        i64::MIN <= d <= i64::MAX,
    ensures
        scalar_div_ok(zero_view(), d),
{
    let z = zero_view();
    let md: nat = abs(d) as nat;
    assert forall|i: int| 0 <= i < 8 implies fits_i64(#[trigger] sdiv_exps(z, d)[i]) by {
        lemma_cnt_at_le(md, i);
    }
    assert(sgn_of(d) * z.num == 0) by (nonlinear_arith)
        requires
            z.num == 0,
    ;
    lemma_rest_after_le(md, 8);
    assert(sdiv_den0(z, d) >= 1) by (nonlinear_arith)
        requires
            sdiv_den0(z, d) == z.den * (rest_after(abs(d) as nat, 8) as int),
            z.den == 1,
            rest_after(abs(d) as nat, 8) >= 1,
    ;
    lemma_red_zero_any(sdiv_den0(z, d));
}

/// The fixed prime at position `i`, as the loops walk the exponent table.
fn prime_at(i: usize) -> (p: u64)
    requires
        i < 8,
    ensures
        p as int == prime_val(i as int),
        2 <= p <= 19,
{
    if i == 0 {
        2
    } else if i == 1 {
        3
    } else if i == 2 {
        5
    } else if i == 3 {
        7
    } else if i == 4 {
        11
    } else if i == 5 {
        13
    } else if i == 6 {
        17
    } else {
        19
    }
}

/// Reducing a zero numerator against a positive denominator gives the
/// canonical residual pair zero over one.
pub proof fn lemma_red_zero(d: nat)
    requires
        d > 0,
    ensures
        red_num(0, d as int) == 0,
        red_den(0, d as int) == 1,
{
    assert(gcd(0, d) == gcd(d, 0)) by {
        assert(0nat % d == 0) by {
            vstd::arithmetic::div_mod::lemma_small_mod(0, d);
        }
    }
    vstd::arithmetic::div_mod::lemma_div_of0(d as int);
    vstd::arithmetic::div_mod::lemma_div_by_self(d as int);
}

/// The same canonical pair results whatever the sign of the denominator.
pub proof fn lemma_red_zero_any(d: int)
    requires
        d != 0,
    ensures
        red_num(0, d) == 0,
        red_den(0, d) == 1,
{
    lemma_red_zero(abs(d) as nat);
}

} // verus!
