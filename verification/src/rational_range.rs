//! Closed intervals with rational endpoints, and the interval arithmetic on
//! them: sum, product, reciprocal and outward rounding.

use crate::bignat::nat_of;
use crate::fraction::{
    lemma_value_add, lemma_value_inv, lemma_value_mul, lemma_value_order, lemma_value_rounding,
    lemma_value_unique, Fraction,
};
use crate::rational::Rational;
use num_bigint::BigUint;
use vstd::prelude::*;

verus! {

/// Where an interval lies relative to zero.
#[derive(Clone, Copy, PartialEq, Eq, Structural, Debug)]
pub enum RationalRangeDescriptor {
    /// No point of the interval is below zero.
    BothPos,
    /// No point of the interval is above zero, and some point is below.
    BothNeg,
    /// Zero lies strictly inside the interval.
    OverlapZero,
}

/// The mathematical model of a `RationalRange`: the interval `[lo, hi]`.
pub struct Interval {
    pub lo: Fraction,
    pub hi: Fraction,
}

/// The least of four fractions.
pub open spec fn min4(p: Fraction, q: Fraction, r: Fraction, s: Fraction) -> Fraction {
    p.min(q).min(r.min(s))
}

/// The greatest of four fractions.
pub open spec fn max4(p: Fraction, q: Fraction, r: Fraction, s: Fraction) -> Fraction {
    p.max(q).max(r.max(s))
}

impl Interval {
    /// Both endpoints are fractions and the lower is not above the upper.
    pub open spec fn wf(self) -> bool {
        self.lo.wf() && self.hi.wf() && self.lo.le(self.hi)
    }

    /// The real number `x` lies in the interval.
    pub open spec fn contains(self, x: real) -> bool {
        self.lo.value() <= x <= self.hi.value()
    }

    /// The interval that holds the single point `q`.
    pub open spec fn point(q: Fraction) -> Interval {
        Interval { lo: q, hi: q }
    }

    /// Where the interval lies relative to zero.
    pub open spec fn descriptor(self) -> RationalRangeDescriptor {
        if self.lo.num >= 0 {
            RationalRangeDescriptor::BothPos
        } else if self.hi.num <= 0 {
            RationalRangeDescriptor::BothNeg
        } else {
            RationalRangeDescriptor::OverlapZero
        }
    }

    /// Zero is not a point of the interval.
    pub open spec fn excludes_zero(self) -> bool {
        self.lo.num > 0 || self.hi.num < 0
    }

    /// The sums of the points of two intervals.
    pub open spec fn add(self, other: Interval) -> Interval {
        Interval { lo: self.lo.add(other.lo), hi: self.hi.add(other.hi) }
    }

    /// The products of the points of two intervals: the interval spanned by
    /// the four products of endpoints.
    pub open spec fn mul(self, other: Interval) -> Interval {
        let ac = self.lo.mul(other.lo);
        let ad = self.lo.mul(other.hi);
        let bc = self.hi.mul(other.lo);
        let bd = self.hi.mul(other.hi);
        Interval { lo: min4(ac, ad, bc, bd), hi: max4(ac, ad, bc, bd) }
    }

    /// The same product, read off a table by where the two intervals lie
    /// relative to zero.
    pub open spec fn mul_by_cases(self, other: Interval) -> Interval {
        let ac = self.lo.mul(other.lo);
        let ad = self.lo.mul(other.hi);
        let bc = self.hi.mul(other.lo);
        let bd = self.hi.mul(other.hi);
        match (self.descriptor(), other.descriptor()) {
            (RationalRangeDescriptor::BothPos, RationalRangeDescriptor::BothPos) => Interval {
                lo: ac,
                hi: bd,
            },
            (RationalRangeDescriptor::BothPos, RationalRangeDescriptor::BothNeg) => Interval {
                lo: bc,
                hi: ad,
            },
            (RationalRangeDescriptor::BothPos, RationalRangeDescriptor::OverlapZero) => Interval {
                lo: bc,
                hi: bd,
            },
            (RationalRangeDescriptor::BothNeg, RationalRangeDescriptor::BothPos) => Interval {
                lo: ad,
                hi: bc,
            },
            (RationalRangeDescriptor::BothNeg, RationalRangeDescriptor::BothNeg) => Interval {
                lo: bd,
                hi: ac,
            },
            (RationalRangeDescriptor::BothNeg, RationalRangeDescriptor::OverlapZero) => Interval {
                lo: ad,
                hi: ac,
            },
            (RationalRangeDescriptor::OverlapZero, RationalRangeDescriptor::BothPos) => Interval {
                lo: ad,
                hi: bd,
            },
            (RationalRangeDescriptor::OverlapZero, RationalRangeDescriptor::BothNeg) => Interval {
                lo: bc,
                hi: ac,
            },
            (
                RationalRangeDescriptor::OverlapZero,
                RationalRangeDescriptor::OverlapZero,
            ) => Interval { lo: ad.min(bc), hi: ac.max(bd) },
        }
    }

    /// The products of the points of an interval with the number `c`.
    pub open spec fn scale(self, c: Fraction) -> Interval {
        if c.num >= 0 {
            Interval { lo: self.lo.mul(c), hi: self.hi.mul(c) }
        } else {
            Interval { lo: self.hi.mul(c), hi: self.lo.mul(c) }
        }
    }

    /// The reciprocals of the points of an interval that excludes zero.
    pub open spec fn recip(self) -> Interval {
        Interval { lo: self.hi.inv(), hi: self.lo.inv() }
    }

    /// The interval widened to endpoints with the denominator `d`: the lower
    /// endpoint rounded down, the upper rounded up.
    pub open spec fn coarsen(self, d: int) -> Interval {
        Interval { lo: self.lo.floor_to(d), hi: self.hi.ceil_to(d) }
    }

    /// Every point of the interval is a point of `other`.
    pub open spec fn within(self, other: Interval) -> bool {
        other.lo.value() <= self.lo.value() && self.hi.value() <= other.hi.value()
    }
}

/// The least of four fractions in lowest terms is any one of them that is
/// not above the others.
pub proof fn lemma_min4_is(p: Fraction, q: Fraction, r: Fraction, s: Fraction, m: Fraction)
    requires
        p.reduced(),
        q.reduced(),
        r.reduced(),
        s.reduced(),
        m == p || m == q || m == r || m == s,
        m.value() <= p.value(),
        m.value() <= q.value(),
        m.value() <= r.value(),
        m.value() <= s.value(),
    ensures
        min4(p, q, r, s) == m,
{
    lemma_value_order(p, q);
    lemma_value_order(r, s);
    lemma_value_order(p.min(q), r.min(s));
    lemma_value_unique(min4(p, q, r, s), m);
}

/// The greatest of four fractions in lowest terms is any one of them that is
/// not below the others.
pub proof fn lemma_max4_is(p: Fraction, q: Fraction, r: Fraction, s: Fraction, m: Fraction)
    requires
        p.reduced(),
        q.reduced(),
        r.reduced(),
        s.reduced(),
        m == p || m == q || m == r || m == s,
        m.value() >= p.value(),
        m.value() >= q.value(),
        m.value() >= r.value(),
        m.value() >= s.value(),
    ensures
        max4(p, q, r, s) == m,
{
    lemma_value_order(q, p);
    lemma_value_order(s, r);
    lemma_value_order(r.max(s), p.max(q));
    lemma_value_unique(max4(p, q, r, s), m);
}

/// The table of nine cases gives the interval spanned by the four products
/// of endpoints.
pub proof fn lemma_mul_by_cases(i: Interval, j: Interval)
    requires
        i.wf(),
        j.wf(),
    ensures
        i.mul(j) == i.mul_by_cases(j),
        i.mul(j).lo.reduced(),
        i.mul(j).hi.reduced(),
        i.mul(j).lo.value() <= i.mul(j).hi.value(),
        i.mul(j).wf(),
{
    let ac = i.lo.mul(j.lo);
    let ad = i.lo.mul(j.hi);
    let bc = i.hi.mul(j.lo);
    let bd = i.hi.mul(j.hi);
    lemma_value_mul(i.lo, j.lo);
    lemma_value_mul(i.lo, j.hi);
    lemma_value_mul(i.hi, j.lo);
    lemma_value_mul(i.hi, j.hi);
    lemma_value_order(i.lo, i.hi);
    lemma_value_order(j.lo, j.hi);
    lemma_sign_of_value(i.lo);
    lemma_sign_of_value(i.hi);
    lemma_sign_of_value(j.lo);
    lemma_sign_of_value(j.hi);
    let a = i.lo.value();
    let b = i.hi.value();
    let c = j.lo.value();
    let d = j.hi.value();
    let r = i.mul_by_cases(j);
    // the order of products that share a factor follows the sign of that factor
    assert((a >= 0real ==> a * c <= a * d) && (a <= 0real ==> a * d <= a * c)) by (nonlinear_arith)
        requires
            c <= d,
    ;
    assert((b >= 0real ==> b * c <= b * d) && (b <= 0real ==> b * d <= b * c)) by (nonlinear_arith)
        requires
            c <= d,
    ;
    assert((c >= 0real ==> a * c <= b * c) && (c <= 0real ==> b * c <= a * c)) by (nonlinear_arith)
        requires
            a <= b,
    ;
    assert((d >= 0real ==> a * d <= b * d) && (d <= 0real ==> b * d <= a * d)) by (nonlinear_arith)
        requires
            a <= b,
    ;
    lemma_value_order(ad, bc);
    lemma_value_order(bd, ac);
    lemma_min4_is(ac, ad, bc, bd, r.lo);
    lemma_max4_is(ac, ad, bc, bd, r.hi);
    lemma_value_order(r.lo, r.hi);
}

/// The sign of a fraction's numerator is the sign of its value.
pub proof fn lemma_sign_of_value(x: Fraction)
    requires
        x.wf(),
    ensures
        (x.num >= 0) == (x.value() >= 0real),
        (x.num > 0) == (x.value() > 0real),
        (x.num == 0) == (x.value() == 0real),
{
    let a = x.num as real;
    let b = x.den as real;
    assert((a >= 0real) == (a / b >= 0real) && (a > 0real) == (a / b > 0real) && (a == 0real) == (a
        / b == 0real)) by (nonlinear_arith)
        requires
            b > 0real,
    ;
}

/// The sum of two intervals contains the sum of any two of their points.
pub proof fn lemma_add_sound(i: Interval, j: Interval, x: real, y: real)
    requires
        i.wf(),
        j.wf(),
        i.contains(x),
        j.contains(y),
    ensures
        i.add(j).contains(x + y),
        i.add(j).wf(),
{
    lemma_value_add(i.lo, j.lo);
    lemma_value_add(i.hi, j.hi);
    lemma_value_order(i.add(j).lo, i.add(j).hi);
}

/// The product of two intervals contains the product of any two of their
/// points.
pub proof fn lemma_mul_sound(i: Interval, j: Interval, x: real, y: real)
    requires
        i.wf(),
        j.wf(),
        i.contains(x),
        j.contains(y),
    ensures
        i.mul(j).contains(x * y),
        i.mul(j).wf(),
{
    let ac = i.lo.mul(j.lo);
    let ad = i.lo.mul(j.hi);
    let bc = i.hi.mul(j.lo);
    let bd = i.hi.mul(j.hi);
    lemma_value_mul(i.lo, j.lo);
    lemma_value_mul(i.lo, j.hi);
    lemma_value_mul(i.hi, j.lo);
    lemma_value_mul(i.hi, j.hi);
    lemma_mul_by_cases(i, j);
    let lo = min4(ac, ad, bc, bd);
    let hi = max4(ac, ad, bc, bd);
    lemma_value_order(ac, ad);
    lemma_value_order(bc, bd);
    lemma_value_order(ac.min(ad), bc.min(bd));
    lemma_value_order(ad, ac);
    lemma_value_order(bd, bc);
    lemma_value_order(bc.max(bd), ac.max(ad));
    let a = i.lo.value();
    let b = i.hi.value();
    let c = j.lo.value();
    let d = j.hi.value();
    let l = lo.value();
    let h = hi.value();
    // x * y lies between x * c and x * d, each of which lies between two corners
    assert(l <= x * y <= h) by (nonlinear_arith)
        requires
            a <= x <= b,
            c <= y <= d,
            l <= a * c,
            l <= a * d,
            l <= b * c,
            l <= b * d,
            a * c <= h,
            a * d <= h,
            b * c <= h,
            b * d <= h,
    {
        assert((x >= 0real ==> x * c <= x * y <= x * d) && (x <= 0real ==> x * d <= x * y <= x
            * c));
        assert((c >= 0real ==> a * c <= x * c <= b * c) && (c <= 0real ==> b * c <= x * c <= a
            * c));
        assert((d >= 0real ==> a * d <= x * d <= b * d) && (d <= 0real ==> b * d <= x * d <= a
            * d));
    }
}

/// An interval multiplied by a number contains the product of any of its
/// points with that number.
pub proof fn lemma_scale_sound(i: Interval, c: Fraction, x: real)
    requires
        i.wf(),
        c.wf(),
        i.contains(x),
    ensures
        i.scale(c).contains(x * c.value()),
        i.scale(c).wf(),
{
    lemma_value_mul(i.lo, c);
    lemma_value_mul(i.hi, c);
    lemma_sign_of_value(c);
    let a = i.lo.value();
    let b = i.hi.value();
    let z = c.value();
    assert((z >= 0real ==> a * z <= x * z <= b * z) && (z <= 0real ==> b * z <= x * z <= a * z))
        by (nonlinear_arith)
        requires
            a <= x <= b,
    ;
    lemma_value_order(i.scale(c).lo, i.scale(c).hi);
}

/// The reciprocal of an interval that excludes zero contains the reciprocal
/// of any of its points.
pub proof fn lemma_recip_sound(i: Interval, x: real)
    requires
        i.wf(),
        i.excludes_zero(),
        i.contains(x),
    ensures
        x != 0real,
        i.recip().contains(1real / x),
        i.recip().wf(),
        i.recip().excludes_zero(),
{
    lemma_sign_of_value(i.lo);
    lemma_sign_of_value(i.hi);
    lemma_value_order(i.lo, i.hi);
    lemma_value_inv(i.lo);
    lemma_value_inv(i.hi);
    let a = i.lo.value();
    let b = i.hi.value();
    assert(1real / b <= 1real / x <= 1real / a && (a > 0real ==> 1real / b > 0real) && (b < 0real
        ==> 1real / a < 0real)) by (nonlinear_arith)
        requires
            a <= x <= b,
            a > 0real || b < 0real,
    ;
    lemma_value_order(i.recip().lo, i.recip().hi);
    lemma_sign_of_value(i.recip().lo);
    lemma_sign_of_value(i.recip().hi);
}

/// An interval widened to a denominator contains every point that it
/// contained before.
pub proof fn lemma_coarsen_sound(i: Interval, d: int, x: real)
    requires
        i.wf(),
        d > 0,
        i.contains(x),
    ensures
        i.coarsen(d).contains(x),
        i.coarsen(d).wf(),
{
    lemma_value_rounding(i.lo, d);
    lemma_value_rounding(i.hi, d);
    lemma_value_order(i.lo, i.hi);
    lemma_value_order(i.coarsen(d).lo, i.coarsen(d).hi);
}

/// A closed interval `[min, max]` with rational endpoints.
pub struct RationalRange {
    pub min: Rational,
    pub max: Rational,
}

impl View for RationalRange {
    type V = Interval;

    /// The interval that the range stands for.
    open spec fn view(&self) -> Interval {
        Interval { lo: self.min@, hi: self.max@ }
    }
}

impl Clone for RationalRange {
    fn clone(&self) -> (r: RationalRange)
        ensures
            r.min.same(self.min),
            r.max.same(self.max),
            r@ == self@,
    {
        RationalRange { min: self.min.clone(), max: self.max.clone() }
    }
}

impl RationalRange {
    /// Both endpoints have nonzero denominators and `min` is not above `max`.
    pub open spec fn wf(&self) -> bool {
        self.min.wf() && self.max.wf() && self.min@.le(self.max@)
    }

    /// The range is well formed and both endpoints are in canonical form.
    pub open spec fn canonical(&self) -> bool {
        self.wf() && self.min.canonical() && self.max.canonical()
    }

    /// The range between two rationals, the first not above the second.
    pub fn from(i: (Rational, Rational)) -> (r: RationalRange)
        requires
            i.0.wf(),
            i.1.wf(),
            i.0@.le(i.1@),
        ensures
            r.min == i.0,
            r.max == i.1,
            r.wf(),
    {
        RationalRange { min: i.0, max: i.1 }
    }

    /// The range between two whole numbers, the first not above the second.
    pub fn from_ints(min: isize, max: isize) -> (r: RationalRange)
        requires
            min <= max,
        ensures
            r.canonical(),
            r@ == (Interval { lo: Fraction::from_int(min as int), hi: Fraction::from_int(max as int) }),
    {
        RationalRange { min: Rational::from(min), max: Rational::from(max) }
    }

    /// Widens the range to endpoints with the denominator `new_denom`: `min`
    /// is rounded down and `max` is rounded up, so no point is lost.
    pub fn to_with_denominator(&mut self, new_denom: &BigUint)
        requires
            old(self).wf(),
            nat_of(*new_denom) > 0,
        ensures
            final(self)@ == old(self)@.coarsen(nat_of(*new_denom) as int),
            final(self).wf(),
    {
        proof {
            let d = nat_of(*new_denom) as int;
            lemma_value_rounding(self.min@, d);
            lemma_value_rounding(self.max@, d);
            lemma_value_order(self.min@, self.max@);
            lemma_value_order(self.min@.floor_to(d), self.max@.ceil_to(d));
        }
        self.min.to_with_denominator(new_denom, false);
        self.max.to_with_denominator(new_denom, true);
    }

    /// Where the range lies relative to zero.
    pub fn descriptor(&self) -> (r: RationalRangeDescriptor)
        requires
            self.wf(),
        ensures
            r == self@.descriptor(),
    {
        if !self.min.is_negative() {
            RationalRangeDescriptor::BothPos
        } else if self.max.is_negative() || self.max.is_zero() {
            RationalRangeDescriptor::BothNeg
        } else {
            RationalRangeDescriptor::OverlapZero
        }
    }

    /// Replaces a range that excludes zero by the range of the reciprocals
    /// of its points.
    pub fn reciprocate(&mut self)
        requires
            old(self).wf(),
            old(self)@.excludes_zero(),
        ensures
            final(self)@ == old(self)@.recip(),
            final(self).wf(),
            old(self).canonical() ==> final(self).canonical(),
    {
        proof {
            lemma_value_order(self.min@, self.max@);
            lemma_sign_of_value(self.min@);
            lemma_sign_of_value(self.max@);
            lemma_value_inv(self.min@);
            lemma_value_inv(self.max@);
            let a = self.min@.value();
            let b = self.max@.value();
            assert(1real / b <= 1real / a) by (nonlinear_arith)
                requires
                    a <= b,
                    a > 0real || b < 0real,
            ;
            lemma_value_order(self.max@.inv(), self.min@.inv());
        }
        let mut lo = self.max.clone();
        let mut hi = self.min.clone();
        lo.invert();
        hi.invert();
        self.min = lo;
        self.max = hi;
    }

    /// Multiplies every point of the range by `c`; a negative `c` swaps the
    /// ends.
    pub fn scale(&mut self, c: &Rational)
        requires
            old(self).wf(),
            c.wf(),
        ensures
            final(self)@ == old(self)@.scale(c@),
            final(self).canonical(),
    {
        proof {
            lemma_value_mul(self.min@, c@);
            lemma_value_mul(self.max@, c@);
            lemma_value_order(self.min@, self.max@);
            lemma_sign_of_value(c@);
            let x = self.min@.value();
            let y = self.max@.value();
            let z = c@.value();
            assert((z >= 0real ==> x * z <= y * z) && (z <= 0real ==> y * z <= x * z))
                by (nonlinear_arith)
                requires
                    x <= y,
            ;
            lemma_value_order(self.min@.mul(c@), self.max@.mul(c@));
            lemma_value_order(self.max@.mul(c@), self.min@.mul(c@));
        }
        self.min.mul_assign(c);
        self.max.mul_assign(c);
        if c.is_negative() {
            let lo = self.max.clone();
            let hi = self.min.clone();
            self.min = lo;
            self.max = hi;
        }
    }

    /// Adds `rhs` to the range, endpoint by endpoint.
    pub fn add_assign(&mut self, rhs: &RationalRange)
        requires
            old(self).wf(),
            rhs.wf(),
        ensures
            final(self)@ == old(self)@.add(rhs@),
            final(self).canonical(),
    {
        proof {
            lemma_value_add(self.min@, rhs.min@);
            lemma_value_add(self.max@, rhs.max@);
            lemma_value_order(self.min@, self.max@);
            lemma_value_order(rhs.min@, rhs.max@);
            lemma_value_order(self.min@.add(rhs.min@), self.max@.add(rhs.max@));
        }
        self.min.add_assign(&rhs.min);
        self.max.add_assign(&rhs.max);
    }

    /// Multiplies the range by `rhs`, choosing the two endpoint products by
    /// where the two ranges lie relative to zero.
    pub fn mul_assign(&mut self, rhs: &RationalRange)
        requires
            old(self).wf(),
            rhs.wf(),
        ensures
            final(self)@ == old(self)@.mul(rhs@),
            final(self).canonical(),
    {
        proof {
            lemma_mul_by_cases(self@, rhs@);
        }
        let mut lo: Rational;
        let mut hi: Rational;
        match (self.descriptor(), rhs.descriptor()) {
            (RationalRangeDescriptor::BothPos, RationalRangeDescriptor::BothPos) => {
                lo = self.min.clone();
                lo.mul_assign(&rhs.min);
                hi = self.max.clone();
                hi.mul_assign(&rhs.max);
            },
            (RationalRangeDescriptor::BothPos, RationalRangeDescriptor::BothNeg) => {
                lo = self.max.clone();
                lo.mul_assign(&rhs.min);
                hi = self.min.clone();
                hi.mul_assign(&rhs.max);
            },
            (RationalRangeDescriptor::BothPos, RationalRangeDescriptor::OverlapZero) => {
                lo = self.max.clone();
                lo.mul_assign(&rhs.min);
                hi = self.max.clone();
                hi.mul_assign(&rhs.max);
            },
            (RationalRangeDescriptor::BothNeg, RationalRangeDescriptor::BothPos) => {
                lo = self.min.clone();
                lo.mul_assign(&rhs.max);
                hi = self.max.clone();
                hi.mul_assign(&rhs.min);
            },
            (RationalRangeDescriptor::BothNeg, RationalRangeDescriptor::BothNeg) => {
                lo = self.max.clone();
                lo.mul_assign(&rhs.max);
                hi = self.min.clone();
                hi.mul_assign(&rhs.min);
            },
            (RationalRangeDescriptor::BothNeg, RationalRangeDescriptor::OverlapZero) => {
                lo = self.min.clone();
                lo.mul_assign(&rhs.max);
                hi = self.min.clone();
                hi.mul_assign(&rhs.min);
            },
            (RationalRangeDescriptor::OverlapZero, RationalRangeDescriptor::BothPos) => {
                lo = self.min.clone();
                lo.mul_assign(&rhs.max);
                hi = self.max.clone();
                hi.mul_assign(&rhs.max);
            },
            (RationalRangeDescriptor::OverlapZero, RationalRangeDescriptor::BothNeg) => {
                lo = self.max.clone();
                lo.mul_assign(&rhs.min);
                hi = self.min.clone();
                hi.mul_assign(&rhs.min);
            },
            (RationalRangeDescriptor::OverlapZero, RationalRangeDescriptor::OverlapZero) => {
                lo = self.min.clone();
                lo.mul_assign(&rhs.max);
                let mut other_lo = self.max.clone();
                other_lo.mul_assign(&rhs.min);
                if !lo.le(&other_lo) {
                    lo = other_lo;
                }
                hi = self.min.clone();
                hi.mul_assign(&rhs.min);
                let mut other_hi = self.max.clone();
                other_hi.mul_assign(&rhs.max);
                if !other_hi.le(&hi) {
                    hi = other_hi;
                }
            },
        }
        proof {
            lemma_value_order(lo@, hi@);
        }
        self.min = lo;
        self.max = hi;
    }
}

} // verus!
