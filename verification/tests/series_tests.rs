use byzantine::neoprene_taylor::{compute_euler, compute_pi, factorial_biguint};
use byzantine::rational::Rational;
use num_bigint::BigUint;

fn big(x: u64) -> BigUint {
    BigUint::from(x)
}

#[test]
fn factorials() {
    assert_eq!(factorial_biguint(0), big(1));
    assert_eq!(factorial_biguint(1), big(1));
    assert_eq!(factorial_biguint(5), big(120));
    assert_eq!(factorial_biguint(10), big(3628800));
}

#[test]
fn pi_is_enclosed() {
    let r = compute_pi(&big(3), &big(1_000_000_000));
    let lo = Rational::from_ratio(314159265, 100000000);
    let hi = Rational::from_ratio(314159266, 100000000);
    assert!(r.min.lt(&lo));
    assert!(hi.lt(&r.max));
    assert!(Rational::from_ratio(3141, 1000).lt(&r.min));
    assert!(r.max.lt(&Rational::from_ratio(3142, 1000)));
}

#[test]
fn pi_is_fast_enough() {
    let r = compute_pi(&big(51), &big(1_000_000_000));
    assert!(r.min.lt(&r.max));
}

#[test]
fn euler_is_enclosed() {
    let r = compute_euler(&big(3), &big(1_000_000));
    assert!(r.min.lt(&Rational::from_ratio(271828183, 100000000)));
    assert!(Rational::from_ratio(271828182, 100000000).lt(&r.max));
    assert!(Rational::from_ratio(271, 100).lt(&r.min));
}

fn ends(r: &byzantine::rational_range::RationalRange) -> (BigUint, BigUint, BigUint, BigUint) {
    (r.min.numer.clone(), r.min.denom.clone(), r.max.numer.clone(), r.max.denom.clone())
}

#[test]
fn pi_partial_sums() {
    // no term: between 3 and 3 + 4/24
    assert_eq!(ends(&compute_pi(&big(0), &big(6))), (big(18), big(6), big(19), big(6)));
    // eight and nine terms: 801821/255255 and 91424611/29099070
    assert_eq!(
        ends(&compute_pi(&big(1), &big(1_000_000))),
        (big(3141254), big(1_000_000), big(3141840), big(1_000_000))
    );
    assert_eq!(ends(&compute_pi(&big(2), &big(1000))), (big(3141), big(1000), big(3142), big(1000)));
}

#[test]
fn euler_partial_sums() {
    // 2 + 1/2 and the error bound 3/2
    assert_eq!(ends(&compute_euler(&big(0), &big(2))), (big(5), big(2), big(8), big(2)));
    // 2 + 1/2 + 1/6 and the error bound 3/6
    assert_eq!(ends(&compute_euler(&big(1), &big(6))), (big(16), big(6), big(19), big(6)));
    // 163/60 and 329/120
    assert_eq!(
        ends(&compute_euler(&big(3), &big(1_000_000))),
        (big(2716666), big(1_000_000), big(2741667), big(1_000_000))
    );
}

#[test]
fn enclosures_of_constants_narrow() {
    let mut cap = big(6091);
    let mut last_pi = compute_pi(&big(3), &cap);
    let mut last_e = compute_euler(&big(3), &cap);
    for iter in 4..12u64 {
        cap = cap * 3u32;
        let p = compute_pi(&big(iter), &cap);
        let e = compute_euler(&big(iter), &cap);
        assert!(last_pi.min.le(&p.min) && p.max.le(&last_pi.max));
        assert!(last_e.min.le(&e.min) && e.max.le(&last_e.max));
        last_pi = p;
        last_e = e;
    }
}
