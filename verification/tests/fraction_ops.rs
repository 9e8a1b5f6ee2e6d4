use zxcalc::FracError;
use zxcalc::Fraction;

const PRIMES: [i128; 8] = [2, 3, 5, 7, 11, 13, 17, 19];

/// The exact rational a fraction denotes, as a cross-multiplicable pair.
fn value_pair(f: &Fraction) -> (i128, i128) {
    let mut num: i128 = f.numerator() as i128;
    let mut den: i128 = f.denominator() as i128;
    for i in 0..8 {
        let e = f.exponent(i);
        if e >= 0 {
            for _ in 0..e {
                num *= PRIMES[i];
            }
        } else {
            for _ in 0..(-e) {
                den *= PRIMES[i];
            }
        }
    }
    (num, den)
}

fn assert_value_eq(a: &Fraction, b: &Fraction) {
    let (an, ad) = value_pair(a);
    let (bn, bd) = value_pair(b);
    assert_eq!(an * bd, bn * ad);
}

fn assert_canonical_zero(f: &Fraction) {
    assert!(f.is_zero());
    assert_eq!(f.numerator(), 0);
    assert_eq!(f.denominator(), 1);
    for i in 0..8 {
        assert_eq!(f.exponent(i), 0);
    }
}

#[test]
fn zero_is_canonical() {
    let z = Fraction::zero();
    assert_canonical_zero(&z);
    let d: Fraction = Default::default();
    assert_eq!(d, z);
}

#[test]
fn zero_times_scalar_stays_zero() {
    let mut z = Fraction::zero();
    assert_eq!(z.mul_assign(5), Ok(()));
    assert_canonical_zero(&z);
    assert_eq!(z.mul_assign(-123456789), Ok(()));
    assert_canonical_zero(&z);
}

#[test]
fn zero_divided_by_scalar_stays_zero() {
    let mut z = Fraction::zero();
    assert_eq!(z.div_assign(7), Ok(()));
    assert_canonical_zero(&z);
    assert_eq!(z.div_assign(-4), Ok(()));
    assert_canonical_zero(&z);
}

#[test]
fn mul_by_zero_resets_nonzero_state() {
    let mut f = Fraction::from_ratio(7, 3).unwrap();
    assert!(!f.is_zero());
    assert_eq!(f.mul_assign(0), Ok(()));
    assert_canonical_zero(&f);
}

#[test]
fn divide_by_zero_scalar_fails_without_mutation() {
    let mut f = Fraction::from_ratio(7, 3).unwrap();
    let before = Fraction::from_ratio(7, 3).unwrap();
    assert_eq!(f.div_assign(0), Err(FracError::DivideByZero));
    assert_eq!(f, before);
}

#[test]
fn divide_by_zero_fraction_fails_without_mutation() {
    let mut f = Fraction::from_ratio(5, 2).unwrap();
    let before = Fraction::from_ratio(5, 2).unwrap();
    let z = Fraction::zero();
    assert_eq!(f.div_assign_frac(&z), Err(FracError::DivideByZero));
    assert_eq!(f, before);
}

#[test]
fn from_ratio_rejects_zero_denominator() {
    assert_eq!(Fraction::from_ratio(1, 0), Err(FracError::DivideByZero));
}

#[test]
fn half_plus_third_is_five_sixths() {
    let a = Fraction::from_ratio(1, 2).unwrap();
    let b = Fraction::from_ratio(1, 3).unwrap();
    let sum = a.add(&b).unwrap();
    // lowest terms over the shared factored denominator: 5 over 2 * 3
    assert_eq!(sum.numerator(), 5);
    assert_eq!(sum.denominator(), 1);
    assert_eq!(sum.exponent(0), -1);
    assert_eq!(sum.exponent(1), -1);
    let expected = Fraction::from_ratio(5, 6).unwrap();
    assert_value_eq(&sum, &expected);
}

#[test]
fn addition_is_commutative() {
    let a = Fraction::from_ratio(3, 8).unwrap();
    let b = Fraction::from_ratio(-7, 12).unwrap();
    let ab = a.add(&b).unwrap();
    let ba = b.add(&a).unwrap();
    assert_eq!(ab, ba);
    let c = Fraction::from_ratio(22, 35).unwrap();
    let d = Fraction::from_ratio(13, 5).unwrap();
    let cd = c.add(&d).unwrap();
    let dc = d.add(&c).unwrap();
    assert_eq!(cd, dc);
}

#[test]
fn mul_then_div_scalar_round_trip() {
    let mut f = Fraction::from_ratio(3, 7).unwrap();
    let original = Fraction::from_ratio(3, 7).unwrap();
    assert_eq!(f.mul_assign(5), Ok(()));
    assert_eq!(f.div_assign(5), Ok(()));
    assert_eq!(f, original);
    assert_eq!(f.mul_assign(23), Ok(()));
    assert_eq!(f.div_assign(23), Ok(()));
    assert_eq!(f, original);
    assert_eq!(f.mul_assign(-12), Ok(()));
    assert_eq!(f.div_assign(-12), Ok(()));
    assert_value_eq(&f, &original);
}

#[test]
fn mul_then_div_fraction_round_trip() {
    let mut f = Fraction::from_ratio(3, 4).unwrap();
    let original = Fraction::from_ratio(3, 4).unwrap();
    let b = Fraction::from_ratio(23, 29).unwrap();
    assert_eq!(f.mul_assign_frac(&b), Ok(()));
    assert_eq!(f.div_assign_frac(&b), Ok(()));
    assert_value_eq(&f, &original);
    let c = Fraction::from_ratio(-5, 7).unwrap();
    assert_eq!(f.mul_assign_frac(&c), Ok(()));
    assert_eq!(f.div_assign_frac(&c), Ok(()));
    assert_value_eq(&f, &original);
}

#[test]
fn prime_bookkeeping_through_mul_and_div() {
    // twelve raises the exponents of two and three; four lowers two again
    let mut f = Fraction::from_ratio(1, 1).unwrap();
    assert_eq!(f.mul_assign(12), Ok(()));
    assert_eq!(f.exponent(0), 2);
    assert_eq!(f.exponent(1), 1);
    assert_eq!(f.numerator(), 1);
    assert_eq!(f.div_assign(4), Ok(()));
    let three = Fraction::from_ratio(3, 1).unwrap();
    assert_eq!(f, three);
    // the same walk from canonical zero stays at canonical zero
    let mut z = Fraction::zero();
    assert_eq!(z.mul_assign(12), Ok(()));
    assert_eq!(z.div_assign(4), Ok(()));
    assert_canonical_zero(&z);
}

#[test]
fn lowest_terms_after_each_operation() {
    let gcd = |mut a: u64, mut b: u64| {
        while b != 0 {
            let h = a % b;
            a = b;
            b = h;
        }
        a
    };
    let mut f = Fraction::from_ratio(21, 35).unwrap();
    for step in [3i64, -10, 49, 6].iter() {
        f.mul_assign(*step).unwrap();
        let m = f.numerator().unsigned_abs().max(1);
        assert_eq!(gcd(m, f.denominator()), 1);
        f.div_assign(11).unwrap();
        let m = f.numerator().unsigned_abs().max(1);
        assert_eq!(gcd(m, f.denominator()), 1);
    }
}

#[test]
fn residual_multiplication_cross_cancels() {
    // 21/23 times 23/21: shared factors cancel before the products form
    let mut f = Fraction::from_ratio(21, 23).unwrap();
    let g = Fraction::from_ratio(23, 21).unwrap();
    assert_eq!(f.mul_assign_frac(&g), Ok(()));
    let one = Fraction::from_ratio(1, 1).unwrap();
    assert_eq!(f, one);
}

#[test]
fn negative_fraction_division() {
    let mut f = Fraction::from_ratio(1, 2).unwrap();
    let b = Fraction::from_ratio(-3, 1).unwrap();
    assert_eq!(f.div_assign_frac(&b), Ok(()));
    let expected = Fraction::from_ratio(-1, 6).unwrap();
    assert_eq!(f, expected);
}

#[test]
fn residual_overflow_is_reported_and_state_kept() {
    let big: i64 = 1_000_000_007;
    let mut f = Fraction::from_ratio(big, 1).unwrap();
    assert_eq!(f.mul_assign(big), Ok(()));
    let before = f.clone();
    assert_eq!(f.mul_assign(big), Err(FracError::Overflow));
    assert_eq!(f, before);
}

#[test]
fn exponent_overflow_is_reported() {
    let mut f = Fraction::from_ratio(2, 1).unwrap();
    let mut overflowed = false;
    for _ in 0..70 {
        let copy = f.clone();
        match f.mul_assign_frac(&copy) {
            Ok(()) => {}
            Err(e) => {
                assert_eq!(e, FracError::Overflow);
                overflowed = true;
                break;
            }
        }
    }
    assert!(overflowed);
}

#[test]
fn addition_power_overflow_is_reported() {
    let mut f = Fraction::from_ratio(1, 2).unwrap();
    for _ in 0..50 {
        let copy = f.clone();
        f.mul_assign_frac(&copy).unwrap();
    }
    let one = Fraction::from_ratio(1, 1).unwrap();
    assert_eq!(f.add(&one), Err(FracError::Overflow));
}

#[test]
fn addition_with_zero() {
    let z = Fraction::zero();
    let f = Fraction::from_ratio(-9, 14).unwrap();
    let sum = f.add(&z).unwrap();
    assert_value_eq(&sum, &f);
    let sum2 = z.add(&f).unwrap();
    assert_eq!(sum, sum2);
}

#[test]
fn addition_cancels_to_zero() {
    let a = Fraction::from_ratio(5, 6).unwrap();
    let b = Fraction::from_ratio(-5, 6).unwrap();
    let sum = a.add(&b).unwrap();
    assert_canonical_zero(&sum);
}
