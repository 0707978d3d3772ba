use byzantine::rational::{gcd, lcm, Rational, Sign};
use num_bigint::BigUint;

fn big(x: u64) -> BigUint {
    BigUint::from(x)
}

fn rat(n: isize, d: isize) -> Rational {
    Rational::from_ratio(n, d)
}

fn parts(r: &Rational) -> (Sign, BigUint, BigUint) {
    (r.sign, r.numer.clone(), r.denom.clone())
}

#[test]
fn gcd_of_two_numbers() {
    assert_eq!(gcd(&big(12), &big(18)), big(6));
    assert_eq!(gcd(&big(18), &big(12)), big(6));
    assert_eq!(gcd(&big(7), &big(0)), big(7));
    assert_eq!(gcd(&big(0), &big(7)), big(7));
    assert_eq!(gcd(&big(0), &big(0)), big(0));
    assert_eq!(gcd(&big(17), &big(5)), big(1));
}

#[test]
fn lcm_of_two_numbers() {
    assert_eq!(lcm(&big(4), &big(6)), big(12));
    assert_eq!(lcm(&big(5), &big(5)), big(5));
    assert_eq!(lcm(&big(0), &big(6)), big(0));
}

#[test]
fn new_brings_to_lowest_terms() {
    let r = Rational::new(Sign::Neg, big(6), big(8));
    assert_eq!(parts(&r), (Sign::Neg, big(3), big(4)));
    let z = Rational::new(Sign::Neg, big(0), big(8));
    assert_eq!(parts(&z), (Sign::Pos, big(0), big(1)));
}

#[test]
fn addition_and_subtraction() {
    let mut a = rat(1, 2);
    a.add_assign(&rat(1, 3));
    assert_eq!(parts(&a), (Sign::Pos, big(5), big(6)));
    let mut b = rat(1, 2);
    b.sub_assign(&rat(1, 3));
    assert_eq!(parts(&b), (Sign::Pos, big(1), big(6)));
    let mut c = rat(-5, 1);
    c.add_assign(&rat(3, 1));
    assert_eq!(parts(&c), (Sign::Neg, big(2), big(1)));
    let mut d = rat(1, 3);
    d.sub_assign(&rat(1, 3));
    assert_eq!(parts(&d), (Sign::Pos, big(0), big(1)));
}

#[test]
fn multiplication_and_division() {
    let mut a = rat(-2, 3);
    a.mul_assign(&rat(9, 4));
    assert_eq!(parts(&a), (Sign::Neg, big(3), big(2)));
    let mut b = rat(-2, 3);
    b.div_assign(&rat(-4, 9));
    assert_eq!(parts(&b), (Sign::Pos, big(3), big(2)));
}

#[test]
fn powers() {
    let mut a = rat(-2, 3);
    a.powi(&big(3));
    assert_eq!(parts(&a), (Sign::Neg, big(8), big(27)));
    let mut b = rat(-2, 3);
    b.powi(&big(2));
    assert_eq!(parts(&b), (Sign::Pos, big(4), big(9)));
    let mut c = rat(-2, 3);
    c.powi(&big(0));
    assert_eq!(parts(&c), (Sign::Pos, big(1), big(1)));
}

#[test]
fn rounding_to_a_denominator() {
    let mut a = rat(1, 3);
    a.to_with_denominator(&big(10), false);
    assert_eq!(parts(&a), (Sign::Pos, big(3), big(10)));
    let mut b = rat(1, 3);
    b.to_with_denominator(&big(10), true);
    assert_eq!(parts(&b), (Sign::Pos, big(4), big(10)));
    let mut c = rat(-1, 3);
    c.to_with_denominator(&big(10), false);
    assert_eq!(parts(&c), (Sign::Neg, big(4), big(10)));
    let mut d = rat(-1, 3);
    d.to_with_denominator(&big(10), true);
    assert_eq!(parts(&d), (Sign::Neg, big(3), big(10)));
    let mut e = rat(1, 2);
    e.to_with_denominator(&big(10), true);
    assert_eq!(parts(&e), (Sign::Pos, big(5), big(10)));
}

#[test]
fn order_of_rationals() {
    assert!(rat(1, 3).lt(&rat(1, 2)));
    assert!(rat(-1, 2).lt(&rat(-1, 3)));
    assert!(rat(-1, 2).lt(&rat(1, 3)));
    assert!(rat(2, 4).eq(&rat(1, 2)));
    assert_eq!(rat(1, 2).order(&rat(1, 3)), 1);
    let neg_zero = Rational { sign: Sign::Neg, numer: big(0), denom: big(5) };
    assert!(neg_zero.eq(&Rational::zero()));
}

#[test]
fn predicates() {
    assert!(Rational::zero().is_zero());
    assert!(!rat(1, 2).is_zero());
    assert!(Rational::one().is_one());
    assert!(rat(3, 3).is_one());
    assert!(!rat(-1, 1).is_one());
    assert!(!rat(1, 2).is_one());
    assert!(rat(-1, 2).is_negative());
    assert!(!rat(1, 2).is_negative());
    assert!(!Rational { sign: Sign::Neg, numer: big(0), denom: big(3) }.is_negative());
    assert!(rat(6, 3).is_int());
    assert!(Rational { sign: Sign::Neg, numer: big(6), denom: big(3) }.is_int());
    assert!(!rat(1, 2).is_int());
    assert!(rat(4, 1).is_int_assume_simplified());
    assert!(!rat(1, 4).is_int_assume_simplified());
    assert!(rat(1, 3).is_denom_odd());
    assert!(!rat(1, 4).is_denom_odd());
    assert!(!rat(1, 6).is_denom_odd());
    assert!(rat(1, 2).is_simplified());
    assert!(!Rational { sign: Sign::Pos, numer: big(2), denom: big(4) }.is_simplified());
}

#[test]
fn signs() {
    assert_eq!(Sign::Pos.bitxor(Sign::Pos), Sign::Pos);
    assert_eq!(Sign::Neg.bitxor(Sign::Neg), Sign::Pos);
    assert_eq!(Sign::Pos.bitxor(Sign::Neg), Sign::Neg);
    assert_eq!(Sign::Neg.bitxor(Sign::Pos), Sign::Neg);
    assert_eq!(Sign::Pos.not(), Sign::Neg);
    assert_eq!(Sign::Neg.not(), Sign::Pos);
    assert_eq!(Sign::Pos.symbol(), "+");
    assert_eq!(Sign::Neg.symbol(), "-");
}

#[test]
fn negation_and_reciprocal() {
    let mut a = rat(2, 3);
    a.negate();
    assert_eq!(parts(&a), (Sign::Neg, big(2), big(3)));
    a.negate();
    assert_eq!(parts(&a), (Sign::Pos, big(2), big(3)));
    let mut z = Rational::zero();
    z.negate();
    assert_eq!(parts(&z), (Sign::Pos, big(0), big(1)));
    let mut b = rat(-2, 3);
    b.invert();
    assert_eq!(parts(&b), (Sign::Neg, big(3), big(2)));
    b.invert();
    assert_eq!(parts(&b), (Sign::Neg, big(2), big(3)));
}

#[test]
fn whole_numbers() {
    assert_eq!(parts(&Rational::from(-7)), (Sign::Neg, big(7), big(1)));
    assert_eq!(parts(&Rational::from(0)), (Sign::Pos, big(0), big(1)));
    assert_eq!(parts(&Rational::from_ratio(6, -4)), (Sign::Neg, big(3), big(2)));
    assert_eq!(parts(&Rational::from_ratio(-6, -4)), (Sign::Pos, big(3), big(2)));
    assert_eq!(parts(&Rational::from_ratio(0, -4)), (Sign::Pos, big(0), big(1)));
    assert_eq!(parts(&Rational::new_usize(Sign::Pos, 10, 4)), (Sign::Pos, big(5), big(2)));
    assert_eq!(parts(&Rational::from(isize::MIN)), (Sign::Neg, big(1u64 << 63), big(1)));
}

#[test]
fn comparison_operators() {
    assert!(rat(1, 3) < rat(1, 2));
    assert!(rat(1, 2) > rat(1, 3));
    assert!(rat(-1, 2) <= rat(-1, 2));
    assert!(rat(2, 4) == rat(1, 2));
    assert!(rat(2, 4) != rat(1, 3));
    assert_eq!(rat(1, 3).cmp(&rat(1, 2)), std::cmp::Ordering::Less);
    assert_eq!(rat(1, 2).cmp(&rat(2, 4)), std::cmp::Ordering::Equal);
    assert_eq!(rat(1, 2).cmp(&rat(-2, 1)), std::cmp::Ordering::Greater);
    assert_eq!(rat(1, 2).partial_cmp(&rat(-2, 1)), Some(std::cmp::Ordering::Greater));
}

fn sum(a: &Rational, b: &Rational) -> Rational {
    let mut r = a.clone();
    r.add_assign(b);
    r
}

fn product(a: &Rational, b: &Rational) -> Rational {
    let mut r = a.clone();
    r.mul_assign(b);
    r
}

#[test]
fn laws_of_arithmetic() {
    let values = vec![
        rat(0, 1),
        rat(1, 2),
        rat(-1, 3),
        rat(7, 5),
        rat(-12, 7),
        rat(1000003, 999983),
        rat(-5, 1),
    ];
    for a in values.iter() {
        for b in values.iter() {
            assert_eq!(parts(&sum(a, b)), parts(&sum(b, a)));
            assert_eq!(parts(&product(a, b)), parts(&product(b, a)));
            for c in values.iter() {
                assert_eq!(parts(&sum(&sum(a, b), c)), parts(&sum(a, &sum(b, c))));
                assert_eq!(
                    parts(&product(a, &sum(b, c))),
                    parts(&sum(&product(a, b), &product(a, c)))
                );
            }
        }
        if !a.is_zero() {
            let mut twice = a.clone();
            twice.invert();
            twice.invert();
            assert_eq!(parts(&twice), parts(a));
        }
    }
}

#[test]
fn results_are_in_lowest_terms() {
    let values = vec![rat(6, 4), rat(-9, 12), rat(10, 15), rat(0, 5), rat(-7, 1)];
    for a in values.iter() {
        for b in values.iter() {
            let mut results = vec![sum(a, b), product(a, b)];
            let mut difference = a.clone();
            difference.sub_assign(b);
            results.push(difference);
            if !b.is_zero() {
                let mut quotient = a.clone();
                quotient.div_assign(b);
                results.push(quotient);
            }
            let mut power = a.clone();
            power.powi(&big(5));
            results.push(power);
            for r in results.iter() {
                assert_eq!(gcd(&r.numer, &r.denom), big(1));
                assert!(r.denom > big(0));
                if r.numer == big(0) {
                    assert_eq!(r.sign, Sign::Pos);
                }
            }
        }
    }
}

#[test]
fn large_numbers() {
    let mut a = rat(1, 3);
    a.powi(&big(12));
    let mut b = a.clone();
    b.mul_assign(&a);
    b.mul_assign(&a);
    let expected = BigUint::from(3u8).pow(36);
    assert_eq!(parts(&b), (Sign::Pos, big(1), expected));
}
