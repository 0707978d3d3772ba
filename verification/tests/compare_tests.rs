use byzantine::byzantine::{ByzNode, TransitiveConsts};
use byzantine::generate_byznode_utils;
use byzantine::neoprene::{neoprene_byznode, try_neoprene_byznode};
use byzantine::neoprene_comp::{neoprene_comp, try_neoprene_comp, NeopreneCompError};
use byzantine::rational::Rational;
use byzantine::rational_range::RationalRange;
use num_bigint::BigUint;
use std::cmp::Ordering;

fn big(x: u64) -> BigUint {
    BigUint::from(x)
}

fn rat(n: isize, d: isize) -> Rational {
    Rational::from_ratio(n, d)
}

fn pi() -> ByzNode {
    generate_byznode_utils::transitive(TransitiveConsts::Pi)
}

fn euler() -> ByzNode {
    generate_byznode_utils::transitive(TransitiveConsts::Euler)
}

fn number(n: isize, d: isize) -> ByzNode {
    generate_byznode_utils::rational(rat(n, d))
}

fn width(r: &RationalRange) -> Rational {
    let mut w = r.max.clone();
    w.sub_assign(&r.min);
    w
}

#[test]
fn rational_against_rational() {
    let r = neoprene_comp(&number(1, 2), &number(1, 3), &big(1));
    assert!(matches!(r, Ok(Ordering::Greater)));
    let r = neoprene_comp(&number(1, 3), &number(1, 2), &big(1));
    assert!(matches!(r, Ok(Ordering::Less)));
}

#[test]
fn pi_against_twenty_two_sevenths() {
    let r = neoprene_comp(&pi(), &number(22, 7), &big(20));
    assert!(matches!(r, Ok(Ordering::Less)));
}

#[test]
fn euler_against_a_decimal() {
    let r = neoprene_comp(&euler(), &number(271, 100), &big(5));
    assert!(matches!(r, Ok(Ordering::Greater)));
}

fn ramanujan_ratio() -> ByzNode {
    let root = generate_byznode_utils::pow(number(2, 1), rat(-1, 2));
    generate_byznode_utils::mul(Some(rat(9801, 2206)), vec![(None, root)])
}

#[test]
fn pi_against_a_close_ratio() {
    // 9801 / (2206 sqrt 2) is above pi by less than one part in ten million
    let r = neoprene_comp(&pi(), &ramanujan_ratio(), &big(18));
    assert!(matches!(r, Ok(Ordering::Less)));
    let r = neoprene_comp(&ramanujan_ratio(), &pi(), &big(18));
    assert!(matches!(r, Ok(Ordering::Greater)));
}

#[test]
fn pi_against_a_close_ratio_needs_effort() {
    // the partial sums of the series for pi are still too far apart
    let r = neoprene_comp(&pi(), &ramanujan_ratio(), &big(12));
    assert!(matches!(r, Err(NeopreneCompError::FailedToConverge)));
}

#[test]
fn equal_values_do_not_converge() {
    let sum = generate_byznode_utils::add(rat(0, 1), vec![(Some(rat(1, 1)), pi())]);
    let r = neoprene_comp(&sum, &pi(), &big(50));
    assert!(matches!(r, Err(NeopreneCompError::FailedToConverge)));
}

#[test]
fn a_polynomial_in_pi_is_enclosed() {
    // (1 + pi^2)^2 + 2 pi = 124.4314...
    let pi_squared = generate_byznode_utils::pow(pi(), rat(2, 1));
    let inner = generate_byznode_utils::add(rat(1, 1), vec![(None, pi_squared)]);
    let squared = generate_byznode_utils::pow(inner, rat(2, 1));
    let e = generate_byznode_utils::add(rat(0, 1), vec![(None, squared), (Some(rat(2, 1)), pi())]);
    let mut last: Option<Rational> = None;
    for iter in 3..8u64 {
        let cap = big(6091 * 3u64.pow((iter - 3) as u32));
        let r = neoprene_byznode(&e, &big(iter), &cap);
        assert!(r.min.lt(&rat(1244314, 10000)));
        assert!(rat(1244315, 10000).lt(&r.max));
        let w = width(&r);
        if let Some(previous) = last {
            assert!(w.le(&previous));
        }
        last = Some(w);
    }
    assert!(try_neoprene_byznode(&e, &big(3), &big(0)).is_none());
}

#[test]
fn a_root_of_a_negative_number_has_no_interval() {
    let root = generate_byznode_utils::pow(number(-2, 1), rat(1, 2));
    assert!(try_neoprene_byznode(&root, &big(3), &big(6091)).is_none());
    assert!(try_neoprene_comp(&root, &pi(), &big(5)).is_none());
    let cube_root = generate_byznode_utils::pow(number(-8, 1), rat(1, 3));
    let r = neoprene_byznode(&cube_root, &big(6), &big(1_000_000));
    assert!(r.min.le(&rat(-2, 1)));
    assert!(rat(-2, 1).le(&r.max));
    assert!(rat(-21, 10).lt(&r.min));
    assert!(r.max.lt(&rat(-19, 10)));
}

#[test]
fn a_reciprocal_of_an_interval_around_zero_has_no_interval() {
    // pi - 22/7 + 1/100 lies around zero at low effort only if the interval is wide
    let around_zero = generate_byznode_utils::add(rat(-3, 1), vec![(None, number(3, 1))]);
    let inverse = generate_byznode_utils::pow(around_zero, rat(-1, 1));
    assert!(try_neoprene_byznode(&inverse, &big(3), &big(6091)).is_none());
}

#[test]
fn an_exponent_above_eight_has_no_interval() {
    let power = generate_byznode_utils::pow(pi(), rat(9, 1));
    assert!(try_neoprene_byznode(&power, &big(3), &big(6091)).is_none());
    let power = generate_byznode_utils::pow(pi(), rat(8, 1));
    assert!(try_neoprene_byznode(&power, &big(3), &big(6091)).is_some());
}

#[test]
fn e_against_pi() {
    let r = neoprene_comp(&euler(), &pi(), &big(3));
    assert!(matches!(r, Ok(Ordering::Less)));
    // e^2 < pi^2 and 2 e > pi
    let euler_squared = generate_byznode_utils::pow(euler(), rat(2, 1));
    let pi_squared = generate_byznode_utils::pow(pi(), rat(2, 1));
    assert!(matches!(neoprene_comp(&euler_squared, &pi_squared, &big(3)), Ok(Ordering::Less)));
    let two_e = generate_byznode_utils::mul(Some(rat(2, 1)), vec![(None, euler())]);
    assert!(matches!(neoprene_comp(&two_e, &pi(), &big(3)), Ok(Ordering::Greater)));
}

#[test]
fn a_negative_coefficient_turns_the_interval() {
    let minus_pi = generate_byznode_utils::add(rat(0, 1), vec![(Some(rat(-1, 1)), pi())]);
    let r = neoprene_byznode(&minus_pi, &big(3), &big(1_000_000));
    assert!(r.min.lt(&rat(-314159, 100000)));
    assert!(rat(-31417, 10000).lt(&r.min));
    assert!(rat(-314160, 100000).lt(&r.max));
    assert!(r.max.lt(&rat(-31415, 10000)));
    assert!(matches!(neoprene_comp(&minus_pi, &number(-3, 1), &big(3)), Ok(Ordering::Less)));
}

#[test]
fn an_effort_beyond_the_machine_has_no_interval() {
    let too_many = BigUint::from(u32::MAX) - 1u32;
    assert!(try_neoprene_byznode(&number(1, 2), &too_many, &big(6091)).is_none());
    let most = BigUint::from(u32::MAX) - 2u32;
    assert!(try_neoprene_byznode(&number(1, 2), &most, &big(6091)).is_some());
    assert!(try_neoprene_byznode(&number(1, 2), &big(0), &big(1)).is_some());
}

#[test]
fn the_close_ratio_is_enclosed() {
    let r = neoprene_byznode(&ramanujan_ratio(), &big(10), &big(100_000_000_000));
    assert!(r.min.lt(&rat(3141592731, 1000000000)));
    assert!(rat(3141592730, 1000000000).lt(&r.max));
    assert!(rat(314159272, 100000000).lt(&r.min));
    assert!(r.max.lt(&rat(314159274, 100000000)));
}
