use byzantine::neoprene_taylor::{nth_root, nth_root_range, pow_is_defined, rational_range_pow};
use byzantine::rational::Rational;
use byzantine::rational_range::{RationalRange, RationalRangeDescriptor};
use num_bigint::BigUint;

fn big(x: u64) -> BigUint {
    BigUint::from(x)
}

fn rat(n: isize, d: isize) -> Rational {
    Rational::from_ratio(n, d)
}

fn range(lo: (isize, isize), hi: (isize, isize)) -> RationalRange {
    RationalRange::from((rat(lo.0, lo.1), rat(hi.0, hi.1)))
}

fn is(r: &RationalRange, lo: (isize, isize), hi: (isize, isize)) -> bool {
    r.min.eq(&rat(lo.0, lo.1)) && r.max.eq(&rat(hi.0, hi.1))
}

fn times(a: &RationalRange, b: &RationalRange) -> RationalRange {
    let mut r = a.clone();
    r.mul_assign(b);
    r
}

#[test]
fn descriptors() {
    assert_eq!(range((1, 2), (3, 1)).descriptor(), RationalRangeDescriptor::BothPos);
    assert_eq!(range((0, 1), (3, 1)).descriptor(), RationalRangeDescriptor::BothPos);
    assert_eq!(range((0, 1), (0, 1)).descriptor(), RationalRangeDescriptor::BothPos);
    assert_eq!(range((-3, 1), (-1, 2)).descriptor(), RationalRangeDescriptor::BothNeg);
    assert_eq!(range((-3, 1), (0, 1)).descriptor(), RationalRangeDescriptor::BothNeg);
    assert_eq!(range((-3, 1), (1, 2)).descriptor(), RationalRangeDescriptor::OverlapZero);
    assert_eq!(RationalRange::from_ints(-2, 5).descriptor(), RationalRangeDescriptor::OverlapZero);
}

#[test]
fn sums_of_intervals() {
    let mut r = range((1, 2), (3, 1));
    r.add_assign(&range((-1, 1), (1, 3)));
    assert!(is(&r, (-1, 2), (10, 3)));
}

#[test]
fn products_in_all_nine_cases() {
    let pos = range((2, 1), (3, 1));
    let neg = range((-5, 1), (-4, 1));
    let mid = range((-7, 1), (6, 1));
    assert!(is(&times(&pos, &pos), (4, 1), (9, 1)));
    assert!(is(&times(&pos, &neg), (-15, 1), (-8, 1)));
    assert!(is(&times(&pos, &mid), (-21, 1), (18, 1)));
    assert!(is(&times(&neg, &pos), (-15, 1), (-8, 1)));
    assert!(is(&times(&neg, &neg), (16, 1), (25, 1)));
    assert!(is(&times(&neg, &mid), (-30, 1), (35, 1)));
    assert!(is(&times(&mid, &pos), (-21, 1), (18, 1)));
    assert!(is(&times(&mid, &neg), (-30, 1), (35, 1)));
    assert!(is(&times(&mid, &mid), (-42, 1), (49, 1)));
    let other = range((-1, 1), (10, 1));
    assert!(is(&times(&mid, &other), (-70, 1), (60, 1)));
}

#[test]
fn products_of_intervals_that_touch_zero() {
    let up = range((0, 1), (3, 1));
    let down = range((-3, 1), (0, 1));
    let mid = range((-2, 1), (5, 1));
    let point = range((0, 1), (0, 1));
    assert!(is(&times(&up, &up), (0, 1), (9, 1)));
    assert!(is(&times(&up, &down), (-9, 1), (0, 1)));
    assert!(is(&times(&down, &down), (0, 1), (9, 1)));
    assert!(is(&times(&down, &up), (-9, 1), (0, 1)));
    assert!(is(&times(&up, &mid), (-6, 1), (15, 1)));
    assert!(is(&times(&down, &mid), (-15, 1), (6, 1)));
    assert!(is(&times(&mid, &up), (-6, 1), (15, 1)));
    assert!(is(&times(&mid, &down), (-15, 1), (6, 1)));
    assert!(is(&times(&point, &mid), (0, 1), (0, 1)));
    assert!(is(&times(&mid, &point), (0, 1), (0, 1)));
}

#[test]
fn scaled_intervals() {
    let mut r = range((1, 2), (3, 1));
    r.scale(&rat(2, 1));
    assert!(is(&r, (1, 1), (6, 1)));
    let mut r = range((1, 2), (3, 1));
    r.scale(&rat(-2, 1));
    assert!(is(&r, (-6, 1), (-1, 1)));
    let mut r = range((1, 2), (3, 1));
    r.scale(&rat(0, 1));
    assert!(is(&r, (0, 1), (0, 1)));
}

#[test]
fn reciprocals() {
    let mut r = range((1, 2), (3, 1));
    r.reciprocate();
    assert!(is(&r, (1, 3), (2, 1)));
    let mut r = range((-4, 1), (-1, 2));
    r.reciprocate();
    assert!(is(&r, (-2, 1), (-1, 4)));
}

#[test]
fn widening_rounds_outward() {
    let mut r = range((1, 3), (2, 3));
    r.to_with_denominator(&big(10));
    assert!(is(&r, (3, 10), (7, 10)));
    assert_eq!(r.min.denom, big(10));
    let mut r = range((-2, 3), (-1, 3));
    r.to_with_denominator(&big(10));
    assert!(is(&r, (-7, 10), (-3, 10)));
    let mut r = range((1, 2), (1, 2));
    r.to_with_denominator(&big(10));
    assert!(is(&r, (1, 2), (1, 2)));
}

fn encloses_root(r: &RationalRange, value: (isize, isize), degree: u64) -> bool {
    let mut lo = r.min.clone();
    lo.powi(&big(degree));
    let mut hi = r.max.clone();
    hi.powi(&big(degree));
    let v = rat(value.0, value.1);
    lo.le(&v) && v.le(&hi)
}

#[test]
fn roots_are_enclosed() {
    let cap = big(1_000_000_000);
    let mut previous: Option<Rational> = None;
    for iter in 0..8u32 {
        let r = nth_root(&rat(2, 1), 2, iter, &cap);
        assert!(r.min.le(&r.max));
        assert!(encloses_root(&r, (2, 1), 2));
        let mut w = r.max.clone();
        w.sub_assign(&r.min);
        if let Some(p) = previous {
            assert!(w.le(&p));
        }
        previous = Some(w);
    }
    let r = nth_root(&rat(2, 1), 2, 8, &cap);
    assert!(rat(141421356, 100000000).lt(&r.min));
    assert!(r.max.lt(&rat(141421357, 100000000)));
    assert!(encloses_root(&nth_root(&rat(10, 7), 3, 6, &cap), (10, 7), 3));
    assert!(encloses_root(&nth_root(&rat(1, 1000), 5, 6, &cap), (1, 1000), 5));
    assert!(encloses_root(&nth_root(&rat(123456, 7), 12, 9, &cap), (123456, 7), 12));
}

#[test]
fn one_step_of_newtons_method() {
    // from [1/2, 2] the midpoint 5/4 undershoots the square by 7/16; the
    // slopes 1 and 4 give [5/4 + 7/64, 5/4 + 7/16] = [1.359375, 1.6875]
    let r = nth_root(&rat(2, 1), 2, 1, &big(1000));
    assert_eq!(r.min.numer, big(1359));
    assert_eq!(r.min.denom, big(1000));
    assert_eq!(r.max.numer, big(1688));
    assert_eq!(r.max.denom, big(1000));
}

#[test]
fn roots_of_special_numbers() {
    let cap = big(1000);
    let zero = nth_root(&rat(0, 1), 2, 5, &cap);
    assert!(is(&zero, (0, 1), (0, 1)));
    let first = nth_root(&rat(5, 3), 1, 5, &cap);
    assert!(is(&first, (5, 3), (5, 3)));
    let start = nth_root(&rat(17, 5), 2, 0, &cap);
    assert!(is(&start, (4, 3), (5, 2)));
    let negative = nth_root(&rat(-27, 1), 3, 6, &big(1_000_000));
    assert!(negative.min.le(&rat(-3, 1)));
    assert!(rat(-3, 1).le(&negative.max));
    assert!(negative.max.lt(&rat(-29, 10)));
    assert!(rat(-31, 10).lt(&negative.min));
    let whole = nth_root_range(&range((4, 1), (9, 1)), 2, 8, &big(1_000_000));
    assert!(whole.min.le(&rat(2, 1)) && rat(19, 10).lt(&whole.min));
    assert!(rat(3, 1).le(&whole.max) && whole.max.lt(&rat(31, 10)));
}

#[test]
fn powers_of_intervals() {
    let iter = big(6);
    let cap = big(1_000_000);
    let base = range((-2, 1), (3, 1));
    let r = rational_range_pow(&base, &rat(2, 1), &iter, &cap);
    assert!(is(&r, (0, 1), (9, 1)));
    let r = rational_range_pow(&base, &rat(3, 1), &iter, &cap);
    assert!(is(&r, (-8, 1), (27, 1)));
    let r = rational_range_pow(&base, &rat(1, 1), &iter, &cap);
    assert!(is(&r, (-2, 1), (3, 1)));
    let negative = range((-3, 1), (-2, 1));
    let r = rational_range_pow(&negative, &rat(2, 1), &iter, &cap);
    assert!(is(&r, (4, 1), (9, 1)));
    let r = rational_range_pow(&negative, &rat(-2, 1), &iter, &cap);
    assert!(is(&r, (1, 9), (1, 4)));
    let r = rational_range_pow(&negative, &rat(-1, 1), &iter, &cap);
    assert!(is(&r, (-1, 2), (-1, 3)));
    let r = rational_range_pow(&range((4, 1), (9, 1)), &rat(3, 2), &iter, &cap);
    assert!(r.min.le(&rat(8, 1)) && rat(79, 10).lt(&r.min));
    assert!(rat(27, 1).le(&r.max) && r.max.lt(&rat(271, 10)));
    let r = rational_range_pow(&range((4, 1), (9, 1)), &rat(-1, 2), &iter, &cap);
    assert!(r.min.le(&rat(1, 3)) && rat(33, 100).lt(&r.min));
    assert!(rat(1, 2).le(&r.max) && r.max.lt(&rat(51, 100)));
}

#[test]
fn which_powers_are_defined() {
    let base = range((-2, 1), (3, 1));
    let positive = range((2, 1), (3, 1));
    assert!(pow_is_defined(&base, &rat(2, 1)));
    assert!(pow_is_defined(&base, &rat(1, 3)));
    assert!(!pow_is_defined(&base, &rat(1, 2)));
    assert!(!pow_is_defined(&base, &rat(-1, 1)));
    assert!(!pow_is_defined(&base, &rat(0, 1)));
    assert!(pow_is_defined(&positive, &rat(-1, 2)));
    assert!(pow_is_defined(&positive, &rat(8, 1)));
    assert!(!pow_is_defined(&positive, &rat(9, 1)));
    assert!(pow_is_defined(&positive, &rat(-12, 1)));
    assert!(!pow_is_defined(&positive, &rat(-13, 1)));
    assert!(!pow_is_defined(&positive, &rat(1, 13)));
    assert!(!pow_is_defined(&range((0, 1), (3, 1)), &rat(-1, 1)));
    let unreduced = Rational { sign: byzantine::rational::Sign::Pos, numer: big(2), denom: big(4) };
    assert!(!pow_is_defined(&positive, &unreduced));
}

#[test]
fn odd_roots_of_negative_intervals() {
    let iter = big(8);
    let cap = big(1_000_000);
    let base = range((-27, 1), (-8, 1));
    let r = rational_range_pow(&base, &rat(1, 3), &iter, &cap);
    assert!(r.min.le(&rat(-3, 1)) && rat(-301, 100).lt(&r.min));
    assert!(rat(-2, 1).le(&r.max) && r.max.lt(&rat(-199, 100)));
    let r = rational_range_pow(&base, &rat(-1, 3), &iter, &cap);
    assert!(r.min.le(&rat(-1, 2)) && rat(-51, 100).lt(&r.min));
    assert!(rat(-1, 3).le(&r.max) && r.max.lt(&rat(-33, 100)));
    let r = rational_range_pow(&base, &rat(2, 3), &iter, &cap);
    assert!(r.min.le(&rat(4, 1)) && rat(399, 100).lt(&r.min));
    assert!(rat(9, 1).le(&r.max) && r.max.lt(&rat(901, 100)));
    let around = range((-8, 1), (27, 1));
    let r = rational_range_pow(&around, &rat(1, 3), &iter, &cap);
    assert!(r.min.le(&rat(-2, 1)) && rat(-201, 100).lt(&r.min));
    assert!(rat(3, 1).le(&r.max) && r.max.lt(&rat(301, 100)));
    let r = rational_range_pow(&around, &rat(2, 3), &iter, &cap);
    assert!(r.min.eq(&rat(0, 1)));
    assert!(rat(9, 1).le(&r.max) && r.max.lt(&rat(901, 100)));
}
