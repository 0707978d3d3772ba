//! Exact rational numbers of unbounded size: a sign, a numerator and a
//! nonzero denominator held as big integers.

use crate::bignat::{
    big_add, big_bit, big_clone, big_div, big_eq, big_from_u64, big_is_one, big_is_zero, big_lt,
    big_mul, big_pow, big_rem, big_sub, nat_of, small_value,
};
use crate::fraction::{lemma_div_neg_exact, lemma_reduce, lemma_reduce_eqv, Fraction};
use crate::numtheory;
use crate::numtheory::{
    lemma_coprime_pow, lemma_divides_exact, lemma_gcd_divides, lemma_gcd_symmetric,
};
use num_bigint::BigUint;
use std::cmp::Ordering;
use vstd::arithmetic::div_mod::{
    lemma_div_multiples_vanish, lemma_fundamental_div_mod, lemma_fundamental_div_mod_converse,
};
use vstd::arithmetic::power::{lemma_pow0, lemma_pow1, lemma_pow_positive, pow};
use vstd::arithmetic::power2::lemma2_to64;
use vstd::math::abs;
use vstd::prelude::*;

verus! {

/// The greatest common divisor of two big integers, by Euclid's algorithm.
pub fn gcd(a_r: &BigUint, b_r: &BigUint) -> (r: BigUint)
    ensures
        nat_of(r) == numtheory::gcd(nat_of(*a_r), nat_of(*b_r)),
{
    let mut a = big_clone(a_r);
    let mut b = big_clone(b_r);
    if big_lt(&a, &b) {
        proof {
            lemma_gcd_symmetric(nat_of(a), nat_of(b));
        }
        let t = a;
        a = b;
        b = t;
    }
    while !big_is_zero(&b)
        invariant
            numtheory::gcd(nat_of(a), nat_of(b)) == numtheory::gcd(nat_of(*a_r), nat_of(*b_r)),
        decreases nat_of(b),
    {
        let rem = big_rem(&a, &b);
        a = b;
        b = rem;
    }
    a
}

/// The least common multiple of two big integers.
pub fn lcm(a_r: &BigUint, b_r: &BigUint) -> (r: BigUint)
    ensures
        nat_of(r) == numtheory::lcm(nat_of(*a_r), nat_of(*b_r)),
{
    if big_is_zero(a_r) || big_is_zero(b_r) {
        return big_from_u64(0);
    }
    let g = gcd(a_r, b_r);
    proof {
        let a = nat_of(*a_r);
        let b = nat_of(*b_r);
        lemma_gcd_divides(a, b);
        lemma_lcm_by_quotient(a, b);
    }
    let q = big_div(b_r, &g);
    big_mul(&q, a_r)
}

/// Dividing one factor by the greatest common divisor first gives the least
/// common multiple, and each argument divides it.
pub proof fn lemma_lcm_by_quotient(a: nat, b: nat)
    requires
        a > 0,
        b > 0,
    ensures
        (b / numtheory::gcd(a, b)) * a == numtheory::lcm(a, b),
        numtheory::lcm(a, b) > 0,
        numtheory::lcm(a, b) == (numtheory::lcm(a, b) / a) * a,
        numtheory::lcm(a, b) == (numtheory::lcm(a, b) / b) * b,
{
    let g = numtheory::gcd(a, b);
    lemma_gcd_divides(a, b);
    lemma_divides_exact(g as int, a as int);
    lemma_divides_exact(g as int, b as int);
    let x = a / g;
    let y = b / g;
    assert(a * b == (y * a) * g) by (nonlinear_arith)
        requires
            b == y * g,
    ;
    lemma_div_multiples_vanish((y * a) as int, g as int);
    assert((a * b) as int == (g as int) * ((y * a) as int)) by (nonlinear_arith)
        requires
            a * b == (y * a) * g,
    ;
    assert(numtheory::lcm(a, b) == y * a);
    assert(y > 0) by (nonlinear_arith)
        requires
            b == y * g,
            b > 0,
            g > 0,
    ;
    assert(y * a > 0) by (nonlinear_arith)
        requires
            y > 0,
            a > 0,
    ;
    let l = y * a;
    lemma_div_multiples_vanish(y as int, a as int);
    assert((a as int) * (y as int) == l) by (nonlinear_arith)
        requires
            l == y * a,
    ;
    assert(l / a == y);
    assert(l == (x * b)) by (nonlinear_arith)
        requires
            l == y * a,
            a == x * g,
            b == y * g,
    ;
    lemma_div_multiples_vanish(x as int, b as int);
    assert((b as int) * (x as int) == l) by (nonlinear_arith)
        requires
            l == x * b,
    ;
    assert(l / b == x);
}

/// The sign of a rational number.
#[derive(Clone, Copy, PartialEq, Eq, Structural, Debug)]
pub enum Sign {
    Pos,
    Neg,
}

impl Sign {
    /// The sign of a product of two numbers with the given signs.
    pub fn bitxor(self, rhs: Sign) -> (r: Sign)
        ensures
            r == self.spec_bitxor(rhs),
    {
        match (self, rhs) {
            (Sign::Pos, Sign::Pos) => Sign::Pos,
            (Sign::Neg, Sign::Neg) => Sign::Pos,
            (_, _) => Sign::Neg,
        }
    }

    /// The opposite sign.
    pub fn not(self) -> (r: Sign)
        ensures
            r == self.spec_not(),
    {
        match self {
            Sign::Pos => Sign::Neg,
            Sign::Neg => Sign::Pos,
        }
    }

    /// The sign of a product of two numbers with the given signs.
    pub open spec fn spec_bitxor(self, rhs: Sign) -> Sign {
        if self == rhs {
            Sign::Pos
        } else {
            Sign::Neg
        }
    }

    /// The opposite sign.
    pub open spec fn spec_not(self) -> Sign {
        if self == Sign::Pos {
            Sign::Neg
        } else {
            Sign::Pos
        }
    }

    /// The magnitude `n` taken with this sign.
    pub open spec fn signed(self, n: nat) -> int {
        if self == Sign::Pos {
            n as int
        } else {
            -(n as int)
        }
    }

    /// The sign as text: `+` or `-`.
    pub fn symbol(self) -> (r: &'static str)
        ensures
            r@ == (if self == Sign::Pos {
                "+"@
            } else {
                "-"@
            }),
    {
        match self {
            Sign::Pos => "+",
            Sign::Neg => "-",
        }
    }
}

/// A rational number `sign * numer / denom`.
pub struct Rational {
    pub sign: Sign,
    pub numer: BigUint,
    pub denom: BigUint,
}

impl View for Rational {
    type V = Fraction;

    /// The fraction that the number stands for.
    open spec fn view(&self) -> Fraction {
        Fraction { num: self.sign.signed(nat_of(self.numer)), den: nat_of(self.denom) as int }
    }
}

impl Clone for Rational {
    fn clone(&self) -> (r: Rational)
        ensures
            r.same(*self),
    {
        Rational { sign: self.sign, numer: big_clone(&self.numer), denom: big_clone(&self.denom) }
    }
}

impl PartialEq for Rational {
    /// Whether both numbers have the same value.
    fn eq(&self, other: &Rational) -> (r: bool) {
        self.order(other) == 0
    }
}

impl vstd::std_specs::cmp::PartialEqSpecImpl for Rational {
    open spec fn obeys_eq_spec() -> bool {
        true
    }

    open spec fn eq_spec(&self, other: &Rational) -> bool {
        self@.eqv(other@)
    }
}

impl PartialOrd for Rational {
    /// The order of the two values; never `None`.
    fn partial_cmp(&self, other: &Rational) -> (r: Option<Ordering>) {
        Some(self.cmp(other))
    }
}

impl vstd::std_specs::cmp::PartialOrdSpecImpl for Rational {
    open spec fn obeys_partial_cmp_spec() -> bool {
        true
    }

    open spec fn partial_cmp_spec(&self, other: &Rational) -> Option<Ordering> {
        Some(self.value_order(*other))
    }
}

impl Rational {
    /// The order of the values of two numbers.
    pub open spec fn value_order(&self, other: Rational) -> Ordering {
        if self@.lt(other@) {
            Ordering::Less
        } else if self@.eqv(other@) {
            Ordering::Equal
        } else {
            Ordering::Greater
        }
    }

    /// The order of the values of two numbers. A positive value is above
    /// every negative one, and zero equals zero whatever sign it carries.
    pub fn cmp(&self, other: &Rational) -> (r: Ordering)
        ensures
            r == self.value_order(*other),
    {
        let o = self.order(other);
        if o < 0 {
            Ordering::Less
        } else if o == 0 {
            Ordering::Equal
        } else {
            Ordering::Greater
        }
    }

    /// The denominator is not zero.
    pub open spec fn wf(&self) -> bool {
        nat_of(self.denom) > 0
    }

    /// The number is in its unique canonical form: lowest terms, and a
    /// positive sign for zero.
    pub open spec fn canonical(&self) -> bool {
        &&& self@.reduced()
        &&& nat_of(self.numer) == 0 ==> self.sign == Sign::Pos
    }

    /// Both numbers have the same sign, numerator and denominator.
    pub open spec fn same(&self, other: Rational) -> bool {
        &&& self.sign == other.sign
        &&& nat_of(self.numer) == nat_of(other.numer)
        &&& nat_of(self.denom) == nat_of(other.denom)
    }

    /// The canonical rational with the value `sign * numer / denom`.
    pub fn new(sign: Sign, numer: BigUint, denom: BigUint) -> (r: Rational)
        requires
            nat_of(denom) != 0,
        ensures
            r.canonical(),
            r@ == (Fraction { num: sign.signed(nat_of(numer)), den: nat_of(denom) as int }).reduce(),
    {
        let mut a = Rational { sign, numer, denom };
        a.simplify();
        a
    }

    /// The canonical rational with the value `sign * numer / denom`.
    pub fn new_usize(sign: Sign, numer: usize, denom: usize) -> (r: Rational)
        requires
            denom != 0,
        ensures
            r.canonical(),
            r@ == (Fraction { num: sign.signed(numer as nat), den: denom as int }).reduce(),
    {
        Rational::new(sign, big_from_u64(numer as u64), big_from_u64(denom as u64))
    }

    /// Brings the number into canonical form without changing its value.
    pub fn simplify(&mut self)
        requires
            old(self).wf(),
        ensures
            final(self).canonical(),
            final(self)@ == old(self)@.reduce(),
    {
        let g = gcd(&self.numer, &self.denom);
        proof {
            let n = nat_of(self.numer);
            let d = nat_of(self.denom);
            lemma_reduce(self@);
            lemma_gcd_divides(n, d);
            if self.sign == Sign::Neg {
                lemma_div_neg_exact(n as int, nat_of(g) as int);
            }
            assert(abs(self@.num) == n);
        }
        if !big_is_one(&g) {
            self.numer = big_div(&self.numer, &g);
            self.denom = big_div(&self.denom, &g);
        } else {
            proof {
                assert(nat_of(self.numer) / 1 == nat_of(self.numer));
                assert(nat_of(self.denom) / 1 == nat_of(self.denom));
            }
        }
        if big_is_zero(&self.numer) {
            self.sign = Sign::Pos;
        }
    }

    /// Whether the value is zero.
    pub fn is_zero(&self) -> (r: bool)
        ensures
            r == (self@.num == 0),
    {
        big_is_zero(&self.numer)
    }

    /// The number zero.
    pub fn zero() -> (r: Rational)
        ensures
            r.canonical(),
            r@ == Fraction::from_int(0),
            r.sign == Sign::Pos,
    {
        let r = Rational { sign: Sign::Pos, numer: big_from_u64(0), denom: big_from_u64(1) };
        proof {
            lemma_gcd_symmetric(0, 1);
        }
        r
    }

    /// Whether the value is one.
    pub fn is_one(&self) -> (r: bool)
        requires
            self.wf(),
        ensures
            r == self@.eqv(Fraction::from_int(1)),
    {
        !big_is_zero(&self.numer) && big_eq(&self.numer, &self.denom) && self.sign == Sign::Pos
    }

    /// The number one.
    pub fn one() -> (r: Rational)
        ensures
            r.canonical(),
            r@ == Fraction::from_int(1),
            r.sign == Sign::Pos,
    {
        let r = Rational { sign: Sign::Pos, numer: big_from_u64(1), denom: big_from_u64(1) };
        proof {
            assert(numtheory::gcd(1, 1) == 1) by {
                reveal_with_fuel(numtheory::gcd, 3);
            }
        }
        r
    }

    /// Whether the number is in lowest terms.
    pub fn is_simplified(&self) -> (r: bool)
        requires
            self.wf(),
        ensures
            r == self@.reduced(),
    {
        let g = gcd(&self.numer, &self.denom);
        proof {
            assert(abs(self@.num) == nat_of(self.numer));
        }
        big_is_one(&g)
    }

    /// Whether the value is below zero.
    pub fn is_negative(&self) -> (r: bool)
        ensures
            r == (self@.num < 0),
    {
        !self.is_zero() && self.sign == Sign::Neg
    }

    /// Whether the value is a whole number.
    pub fn is_int(&self) -> (r: bool)
        requires
            self.wf(),
        ensures
            r == (self@.num % self@.den == 0),
    {
        let rem = big_rem(&self.numer, &self.denom);
        proof {
            let n = nat_of(self.numer) as int;
            let d = nat_of(self.denom) as int;
            if self.sign == Sign::Neg {
                if n % d == 0 {
                    lemma_div_neg_exact(n, d);
                }
                if (-n) % d == 0 {
                    lemma_div_neg_exact(-n, d);
                }
            }
        }
        big_is_zero(&rem)
    }

    /// Whether the denominator is odd.
    pub fn is_denom_odd(&self) -> (r: bool)
        ensures
            r == (self@.den % 2 == 1),
    {
        proof {
            lemma2_to64();
        }
        big_bit(&self.denom, 0)
    }

    /// Whether the denominator is one, which for a number in lowest terms
    /// says that it is a whole number.
    pub fn is_int_assume_simplified(&self) -> (r: bool)
        ensures
            r == (self@.den == 1),
    {
        big_is_one(&self.denom)
    }

    /// Replaces the number by its negation. Zero stays zero, with a positive
    /// sign.
    pub fn negate(&mut self)
        ensures
            final(self)@ == old(self)@.neg(),
            nat_of(final(self).numer) == nat_of(old(self).numer),
            nat_of(final(self).denom) == nat_of(old(self).denom),
            final(self).sign == (if old(self)@.num == 0 {
                Sign::Pos
            } else {
                old(self).sign.spec_not()
            }),
            old(self).canonical() ==> final(self).canonical(),
    {
        if big_is_zero(&self.numer) {
            self.sign = Sign::Pos;
        } else {
            self.sign = self.sign.not();
        }
        proof {
            assert(abs(self@.num) == abs(old(self)@.num));
        }
    }

    /// Replaces a nonzero number by its reciprocal.
    pub fn invert(&mut self)
        requires
            old(self).wf(),
            old(self)@.num != 0,
        ensures
            final(self)@ == old(self)@.inv(),
            final(self).sign == old(self).sign,
            nat_of(final(self).numer) == nat_of(old(self).denom),
            nat_of(final(self).denom) == nat_of(old(self).numer),
            final(self).wf(),
            old(self).canonical() ==> final(self).canonical(),
    {
        let n = big_clone(&self.numer);
        let d = big_clone(&self.denom);
        self.numer = d;
        self.denom = n;
        proof {
            lemma_gcd_symmetric(nat_of(old(self).numer), nat_of(old(self).denom));
            assert(abs(old(self)@.num) == nat_of(old(self).numer));
            assert(abs(self@.num) == nat_of(self.numer));
        }
    }

    /// Adds `rhs`, taken with the sign `rhs_sign` in place of its own.
    fn add_signed(&mut self, rhs_sign: Sign, rhs: &Rational)
        requires
            old(self).wf(),
            rhs.wf(),
        ensures
            final(self).canonical(),
            final(self)@ == old(self)@.add(
                Fraction { num: rhs_sign.signed(nat_of(rhs.numer)), den: rhs@.den },
            ),
    {
        let ghost x = self@;
        let ghost y = Fraction { num: rhs_sign.signed(nat_of(rhs.numer)), den: rhs@.den };
        let ghost sign0 = self.sign;
        let ghost n0 = nat_of(self.numer);
        let denom_lcm = lcm(&self.denom, &rhs.denom);
        proof {
            lemma_lcm_by_quotient(nat_of(self.denom), nat_of(rhs.denom));
        }
        let self_factor = big_div(&denom_lcm, &self.denom);
        let rhs_factor = big_div(&denom_lcm, &rhs.denom);
        let a = big_mul(&self.numer, &self_factor);
        let b = big_mul(&rhs.numer, &rhs_factor);
        if self.sign == rhs_sign {
            self.numer = big_add(&a, &b);
        } else if big_lt(&b, &a) {
            self.numer = big_sub(&a, &b);
        } else {
            self.numer = big_sub(&b, &a);
            self.sign = rhs_sign;
        }
        self.denom = denom_lcm;
        proof {
            let f1 = nat_of(self_factor);
            let f2 = nat_of(rhs_factor);
            lemma_signed_scale(sign0, n0, f1);
            lemma_signed_scale(rhs_sign, nat_of(rhs.numer), f2);
            assert(self@.num == x.num * f1 + y.num * f2);
            lemma_common_denominator(x, y, f1 as int, f2 as int, self@.den);
            let raw = Fraction { num: x.num * y.den + y.num * x.den, den: x.den * y.den };
            lemma_reduce_eqv(self@, raw);
        }
        self.simplify();
    }

    /// Adds `rhs` to the number.
    pub fn add_assign(&mut self, rhs: &Rational)
        requires
            old(self).wf(),
            rhs.wf(),
        ensures
            final(self).canonical(),
            final(self)@ == old(self)@.add(rhs@),
    {
        self.add_signed(rhs.sign, rhs);
    }

    /// Subtracts `rhs` from the number.
    pub fn sub_assign(&mut self, rhs: &Rational)
        requires
            old(self).wf(),
            rhs.wf(),
        ensures
            final(self).canonical(),
            final(self)@ == old(self)@.sub(rhs@),
    {
        self.add_signed(rhs.sign.not(), rhs);
    }

    /// Multiplies the number by `rhs`.
    pub fn mul_assign(&mut self, rhs: &Rational)
        requires
            old(self).wf(),
            rhs.wf(),
        ensures
            final(self).canonical(),
            final(self)@ == old(self)@.mul(rhs@),
    {
        proof {
            lemma_signed_product(self.sign, nat_of(self.numer), rhs.sign, nat_of(rhs.numer));
            lemma_product_positive(nat_of(self.denom), nat_of(rhs.denom));
        }
        self.sign = self.sign.bitxor(rhs.sign);
        self.numer = big_mul(&self.numer, &rhs.numer);
        self.denom = big_mul(&self.denom, &rhs.denom);
        self.simplify();
    }

    /// Divides the number by the nonzero `rhs`.
    pub fn div_assign(&mut self, rhs: &Rational)
        requires
            old(self).wf(),
            rhs.wf(),
            rhs@.num != 0,
        ensures
            final(self).canonical(),
            final(self)@ == old(self)@.div(rhs@),
    {
        proof {
            lemma_signed_product(self.sign, nat_of(self.numer), rhs.sign, nat_of(rhs.denom));
            lemma_product_positive(nat_of(self.denom), nat_of(rhs.numer));
        }
        self.sign = self.sign.bitxor(rhs.sign);
        self.numer = big_mul(&self.numer, &rhs.denom);
        self.denom = big_mul(&self.denom, &rhs.numer);
        self.simplify();
    }

    /// Raises the number to a power of at most twelve. A canonical number
    /// stays canonical.
    pub fn powi(&mut self, exp: &BigUint)
        requires
            old(self).wf(),
            nat_of(*exp) <= 12,
        ensures
            final(self)@ == old(self)@.pow(nat_of(*exp)),
            final(self).wf(),
            old(self).canonical() ==> final(self).canonical(),
    {
        let e: u32 = small_value(exp);
        let ghost n = nat_of(self.numer);
        let ghost d = nat_of(self.denom);
        proof {
            lemma_pow_signed(self.sign, n, e as nat);
            lemma_pow_positive(d as int, e as nat);
            if old(self).canonical() {
                assert(abs(self@.num) == n);
                lemma_coprime_pow(n, d, e as nat);
            }
            if n > 0 {
                lemma_pow_positive(n as int, e as nat);
            }
        }
        if e == 0 {
            *self = Rational::one();
            proof {
                lemma_pow0(old(self)@.num);
                lemma_pow0(old(self)@.den);
            }
            return ;
        }
        if e == 1 {
            proof {
                lemma_pow1(old(self)@.num);
                lemma_pow1(old(self)@.den);
            }
            return ;
        }
        if e % 2 == 0 {
            self.sign = Sign::Pos;
        }
        self.numer = big_pow(&self.numer, e);
        self.denom = big_pow(&self.denom, e);
        proof {
            assert(abs(self@.num) == nat_of(self.numer));
            if n == 0 {
                vstd::arithmetic::power::lemma0_pow(e as nat);
            }
        }
    }

    /// Replaces the number by the nearest fraction with the denominator
    /// `new_denom` that is not below it (`round_up`) or not above it. The
    /// result is not brought to lowest terms.
    pub fn to_with_denominator(&mut self, new_denom: &BigUint, round_up: bool)
        requires
            old(self).wf(),
            nat_of(*new_denom) > 0,
        ensures
            final(self)@ == (if round_up {
                old(self)@.ceil_to(nat_of(*new_denom) as int)
            } else {
                old(self)@.floor_to(nat_of(*new_denom) as int)
            }),
            final(self).sign == old(self).sign,
            final(self).wf(),
    {
        let scaled = big_mul(&self.numer, new_denom);
        let quotient = big_div(&scaled, &self.denom);
        let rem = big_rem(&scaled, &self.denom);
        let away = round_up == (self.sign == Sign::Pos);
        proof {
            let n = nat_of(self.numer) as int;
            let d = nat_of(self.denom) as int;
            let t = nat_of(*new_denom) as int;
            lemma_product_positive(nat_of(self.numer), nat_of(*new_denom));
            lemma_div_of_negation(n * t, d);
            assert((-n) * t == -(n * t)) by (nonlinear_arith);
            assert(-(-n) * t == n * t) by (nonlinear_arith);
        }
        if away && !big_is_zero(&rem) {
            let one = big_from_u64(1);
            self.numer = big_add(&quotient, &one);
        } else {
            self.numer = quotient;
        }
        self.denom = big_clone(new_denom);
    }

    /// Whether both numbers have the same value.
    pub fn eq(&self, other: &Rational) -> (r: bool)
        ensures
            r == self@.eqv(other@),
    {
        self.order(other) == 0
    }

    /// Whether the value is below that of `other`.
    pub fn lt(&self, other: &Rational) -> (r: bool)
        ensures
            r == self@.lt(other@),
    {
        self.order(other) < 0
    }

    /// Whether the value is at most that of `other`.
    pub fn le(&self, other: &Rational) -> (r: bool)
        ensures
            r == self@.le(other@),
    {
        self.order(other) <= 0
    }

    /// The order of the two values as a number: negative, zero or positive
    /// as `self` is below, equal to or above `other`.
    pub fn order(&self, other: &Rational) -> (r: i8)
        ensures
            -1 <= r <= 1,
            r < 0 <==> self@.lt(other@),
            r == 0 <==> self@.eqv(other@),
            r > 0 <==> other@.lt(self@),
    {
        let a = big_mul(&self.numer, &other.denom);
        let b = big_mul(&other.numer, &self.denom);
        proof {
            lemma_signed_scale(self.sign, nat_of(self.numer), nat_of(other.denom));
            lemma_signed_scale(other.sign, nat_of(other.numer), nat_of(self.denom));
        }
        let a_zero = big_is_zero(&a);
        let b_zero = big_is_zero(&b);
        if a_zero && b_zero {
            return 0;
        }
        match (self.sign, other.sign) {
            (Sign::Pos, Sign::Neg) => 1,
            (Sign::Neg, Sign::Pos) => -1,
            (Sign::Pos, Sign::Pos) => {
                if big_lt(&a, &b) {
                    -1
                } else if big_eq(&a, &b) {
                    0
                } else {
                    1
                }
            },
            (Sign::Neg, Sign::Neg) => {
                if big_lt(&a, &b) {
                    1
                } else if big_eq(&a, &b) {
                    0
                } else {
                    -1
                }
            },
        }
    }

    /// The whole number `i`.
    pub fn from(i: isize) -> (r: Rational)
        ensures
            r.canonical(),
            r@ == Fraction::from_int(i as int),
    {
        let (sign, magnitude) = split_isize(i);
        let r = Rational { sign, numer: big_from_u64(magnitude), denom: big_from_u64(1) };
        proof {
            assert(abs(r@.num) % 1 == 0);
            assert(numtheory::gcd(abs(r@.num), 1) == 1) by {
                reveal_with_fuel(numtheory::gcd, 3);
            }
        }
        r
    }

    /// The canonical rational with the value `numer / denom`.
    pub fn from_ratio(numer: isize, denom: isize) -> (r: Rational)
        requires
            denom != 0,
        ensures
            r.canonical(),
            r.wf(),
            r@.eqv(Fraction { num: numer as int, den: denom as int }),
    {
        let (sign_n, magnitude_n) = split_isize(numer);
        let (sign_d, magnitude_d) = split_isize(denom);
        let r = Rational::new(
            sign_n.bitxor(sign_d),
            big_from_u64(magnitude_n),
            big_from_u64(magnitude_d),
        );
        proof {
            let raw = Fraction {
                num: sign_n.spec_bitxor(sign_d).signed(magnitude_n as nat),
                den: magnitude_d as int,
            };
            let target = Fraction { num: numer as int, den: denom as int };
            lemma_reduce(raw);
            lemma_signed_product(sign_n, magnitude_n as nat, sign_d, magnitude_d as nat);
            lemma_ratio_of_signed(raw, target, sign_d, r@);
        }
        r
    }
}

/// The sign and the magnitude of a machine integer; zero is positive.
pub fn split_isize(i: isize) -> (r: (Sign, u64))
    ensures
        r.0.signed(r.1 as nat) == i,
        i == 0 ==> r.0 == Sign::Pos,
{
    if i >= 0 {
        (Sign::Pos, i as u64)
    } else {
        (Sign::Neg, (-(i + 1)) as u64 + 1)
    }
}

/// Scaling a signed number by a natural factor scales its magnitude.
pub proof fn lemma_signed_scale(sign: Sign, n: nat, f: nat)
    ensures
        sign.signed(n * f) == sign.signed(n) * f,
{
    assert((-(n as int)) * (f as int) == -((n as int) * (f as int))) by (nonlinear_arith);
}

/// The product of two signed numbers has the product of the magnitudes and
/// the combined sign.
pub proof fn lemma_signed_product(s1: Sign, n1: nat, s2: Sign, n2: nat)
    ensures
        s1.spec_bitxor(s2).signed(n1 * n2) == s1.signed(n1) * s2.signed(n2),
{
    let a = n1 as int;
    let b = n2 as int;
    assert((-a) * b == -(a * b)) by (nonlinear_arith);
    assert(a * (-b) == -(a * b)) by (nonlinear_arith);
    assert((-a) * (-b) == a * b) by (nonlinear_arith);
}

/// A product of natural numbers is positive exactly when both factors are.
pub proof fn lemma_product_positive(a: nat, b: nat)
    ensures
        a * b >= 0,
        a > 0 && b > 0 ==> a * b > 0,
{
    assert(a > 0 && b > 0 ==> a * b > 0) by (nonlinear_arith);
}

/// Two fractions brought to a common denominator `l` add up to a fraction
/// with the value of their sum.
pub proof fn lemma_common_denominator(x: Fraction, y: Fraction, f1: int, f2: int, l: int)
    requires
        x.wf(),
        y.wf(),
        l == f1 * x.den,
        l == f2 * y.den,
    ensures
        x.den * y.den > 0,
        (Fraction { num: x.num * f1 + y.num * f2, den: l }).eqv(
            Fraction { num: x.num * y.den + y.num * x.den, den: x.den * y.den },
        ),
{
    let xn = x.num;
    let xd = x.den;
    let yn = y.num;
    let yd = y.den;
    assert(xd * yd > 0) by (nonlinear_arith)
        requires
            xd > 0,
            yd > 0,
    ;
    let p = xd * yd;
    assert((xn * f1) * p == (xn * yd) * (f1 * xd)) by (nonlinear_arith)
        requires
            p == xd * yd,
    ;
    assert((yn * f2) * p == (yn * xd) * (f2 * yd)) by (nonlinear_arith)
        requires
            p == xd * yd,
    ;
    assert((xn * f1 + yn * f2) * p == (xn * f1) * p + (yn * f2) * p) by (nonlinear_arith);
    assert((xn * yd + yn * xd) * l == (xn * yd) * l + (yn * xd) * l) by (nonlinear_arith);
}

/// A fraction whose numerator carries the sign of a signed denominator has
/// the value of the quotient of the two signed numbers.
pub proof fn lemma_ratio_of_signed(raw: Fraction, target: Fraction, sign_d: Sign, r: Fraction)
    requires
        raw.den > 0,
        target.den == sign_d.signed(raw.den as nat),
        raw.num == target.num * sign_d.signed(1),
        r.eqv(raw),
    ensures
        r.eqv(target),
{
    let u = sign_d.signed(1);
    assert(u == 1 || u == -1);
    assert(raw.num * target.den == target.num * raw.den) by (nonlinear_arith)
        requires
            raw.num == target.num * u,
            target.den == raw.den * u,
            u == 1 || u == -1,
    ;
    assert(r.num * target.den == target.num * r.den) by (nonlinear_arith)
        requires
            r.num * raw.den == raw.num * r.den,
            raw.num * target.den == target.num * raw.den,
            raw.den > 0,
    ;
}

/// A power of a signed number is the power of its magnitude, negated when
/// the number is negative and the exponent odd.
pub proof fn lemma_pow_signed(sign: Sign, n: nat, k: nat)
    ensures
        pow(sign.signed(n), k) == (if k % 2 == 0 {
            Sign::Pos
        } else {
            sign
        }).signed(pow(n as int, k) as nat),
        pow(n as int, k) >= 0,
    decreases k,
{
    reveal(pow);
    if k == 0 {
    } else {
        lemma_pow_signed(sign, n, (k - 1) as nat);
        let p = pow(n as int, (k - 1) as nat);
        let q = pow(sign.signed(n), (k - 1) as nat);
        assert(pow(n as int, k) == (n as int) * p);
        assert(pow(sign.signed(n), k) == sign.signed(n) * q);
        assert((n as int) * p >= 0) by (nonlinear_arith)
            requires
                n >= 0,
                p >= 0,
        ;
        assert((-(n as int)) * p == -((n as int) * p)) by (nonlinear_arith);
        assert((-(n as int)) * (-p) == (n as int) * p) by (nonlinear_arith);
        assert((n as int) * (-p) == -((n as int) * p)) by (nonlinear_arith);
    }
}

/// Rounded-down division of a negated number: the negated quotient, one
/// lower when the division leaves a remainder.
pub proof fn lemma_div_of_negation(n: int, d: int)
    requires
        n >= 0,
        d > 0,
    ensures
        (-n) / d == (if n % d == 0 {
            -(n / d)
        } else {
            -(n / d) - 1
        }),
{
    lemma_fundamental_div_mod(n, d);
    let q = n / d;
    let r = n % d;
    if r == 0 {
        assert(-n == d * (-q) + 0) by (nonlinear_arith)
            requires
                n == d * q + r,
                r == 0,
        ;
        lemma_fundamental_div_mod_converse(-n, d, -q, 0);
    } else {
        assert(-n == d * (-q - 1) + (d - r)) by (nonlinear_arith)
            requires
                n == d * q + r,
        ;
        lemma_fundamental_div_mod_converse(-n, d, -q - 1, d - r);
    }
}

} // verus!
