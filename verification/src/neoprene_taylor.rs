//! Enclosures of the constants pi and e by partial sums of series, and of
//! rational powers of intervals by powers and Newton's method on roots.

use crate::bignat::{
    big_add, big_clone, big_from_u64, big_mul, big_nth_root, biguint_to_u32, nat_of, small_value,
};
use crate::fraction::{
    lemma_from_int_reduced, lemma_real_pow_even, lemma_real_pow_monotone,
    lemma_real_pow_odd_monotone, lemma_real_pow_sign, lemma_reduced_unique, lemma_value_add,
    lemma_value_mul, lemma_value_neg, lemma_value_order, lemma_value_pow, lemma_value_rounding,
    Fraction,
};
use crate::rational::{Rational, Sign};
use crate::rational_range::{lemma_sign_of_value, Interval, RationalRange};
use num_bigint::BigUint;
use vstd::arithmetic::power::{lemma1_pow, lemma_pow_positive, pow};
use vstd::math::abs;
use vstd::prelude::*;

verus! {

/// The factorial `n!`.
pub open spec fn factorial_of(n: nat) -> nat
    decreases n,
{
    if n == 0 {
        1
    } else {
        n * factorial_of((n - 1) as nat)
    }
}

/// The factorial is never zero.
pub proof fn lemma_factorial_positive(n: nat)
    ensures
        factorial_of(n) > 0,
    decreases n,
{
    if n > 0 {
        lemma_factorial_positive((n - 1) as nat);
        let f = factorial_of((n - 1) as nat);
        assert(n * f > 0) by (nonlinear_arith)
            requires
                n > 0,
                f > 0,
        ;
    }
}

/// The factorial of `x` as a big integer.
pub fn factorial_biguint(x: u32) -> (r: BigUint)
    ensures
        nat_of(r) == factorial_of(x as nat),
{
    let mut a = big_from_u64(1);
    if x < 2 {
        proof {
            reveal_with_fuel(factorial_of, 3);
        }
        return a;
    }
    let mut i: u32 = 1;
    proof {
        reveal_with_fuel(factorial_of, 3);
    }
    while i < x
        invariant
            1 <= i <= x,
            nat_of(a) == factorial_of(i as nat),
        decreases x - i,
    {
        i = i + 1;
        let factor = big_from_u64(i as u64);
        proof {
            let f = factorial_of((i - 1) as nat);
            assert(f * (i as nat) == (i as nat) * f) by (nonlinear_arith);
        }
        a = big_mul(&a, &factor);
    }
    a
}

/// The factorial of `x` as a rational.
pub fn factorial(x: u32) -> (r: Rational)
    ensures
        r@ == Fraction::from_int(factorial_of(x as nat) as int),
        r.canonical(),
        r.sign == Sign::Pos,
        r@.num > 0,
{
    proof {
        lemma_from_int_reduced(factorial_of(x as nat) as int);
        lemma_factorial_positive(x as nat);
    }
    Rational { sign: Sign::Pos, numer: factorial_biguint(x), denom: big_from_u64(1) }
}

/// The `n`-th term of the series for pi, for `n` from one on:
/// `4 / (2n (2n + 1) (2n + 2))`, added for odd `n` and subtracted for even.
pub open spec fn pi_term(n: nat) -> Fraction {
    Fraction {
        num: if n % 2 == 1 {
            4
        } else {
            -4
        },
        den: ((2 * n) * (2 * n + 1) * (2 * n + 2)) as int,
    }
}

/// Three plus the first `k` terms of the series for pi.
pub open spec fn pi_partial(k: nat) -> Fraction
    decreases k,
{
    if k == 0 {
        Fraction::from_int(3)
    } else {
        pi_partial((k - 1) as nat).add(pi_term(k))
    }
}

/// The interval between the partial sums after `8 * iter` and
/// `8 * iter + 1` terms. The terms alternate in sign and shrink, so the two
/// sums lie on either side of all later ones.
pub open spec fn pi_bounds(iter: nat) -> Interval {
    let a = pi_partial(8 * iter);
    let b = pi_partial(8 * iter + 1);
    Interval { lo: a.min(b), hi: a.max(b) }
}

/// The enclosure of pi widened to endpoints with the denominator `cap`.
pub open spec fn pi_interval(iter: nat, cap: nat) -> Interval {
    pi_bounds(iter).coarsen(cap as int)
}

/// The partial sums of the series for pi are fractions in lowest terms.
pub proof fn lemma_pi_partial_reduced(k: nat)
    ensures
        pi_partial(k).reduced(),
    decreases k,
{
    if k == 0 {
        lemma_from_int_reduced(3);
    } else {
        lemma_pi_partial_reduced((k - 1) as nat);
        lemma_pi_term_wf(k);
        lemma_value_add(pi_partial((k - 1) as nat), pi_term(k));
    }
}

/// The terms of the series for pi have positive denominators.
pub proof fn lemma_pi_term_wf(n: nat)
    requires
        n >= 1,
    ensures
        pi_term(n).wf(),
{
    assert((2 * n) * (2 * n + 1) * (2 * n + 2) > 0) by (nonlinear_arith)
        requires
            n >= 1,
    ;
}

/// The `n`-th term of the series for pi as a rational.
fn pi_term_of(n: u64) -> (r: Rational)
    requires
        1 <= n <= 0x1_0000_0000_0,
    ensures
        r@ == pi_term(n as nat),
        r.wf(),
{
    let a = big_from_u64(2 * n);
    let b = big_from_u64(2 * n + 1);
    let c = big_from_u64(2 * n + 2);
    let ab = big_mul(&a, &b);
    let denom = big_mul(&ab, &c);
    proof {
        lemma_pi_term_wf(n as nat);
    }
    Rational {
        sign: if n % 2 == 1 {
            Sign::Pos
        } else {
            Sign::Neg
        },
        numer: big_from_u64(4),
        denom,
    }
}

/// The relation of the order of a pair to its smaller and larger member.
pub proof fn lemma_min_max(a: Fraction, b: Fraction)
    requires
        a.reduced(),
        b.reduced(),
    ensures
        a.le(b) ==> a.min(b) == a && a.max(b) == b,
        !a.le(b) ==> a.min(b) == b && a.max(b) == a,
        a.min(b).le(a.max(b)),
{
    lemma_value_order(a, b);
    lemma_value_order(b, a);
    lemma_value_order(a.min(b), a.max(b));
    if a.le(b) && b.le(a) {
        lemma_reduced_unique(a, b);
    }
}

/// An enclosure of pi: the partial sums of the series
/// `3 + 4/(2*3*4) - 4/(4*5*6) + ...` after `8 * iter` and `8 * iter + 1`
/// terms, widened to endpoints with the denominator `limit_denom`.
pub fn compute_pi(newton_iterations: &BigUint, limit_denom: &BigUint) -> (r: RationalRange)
    requires
        nat_of(*newton_iterations) <= u32::MAX,
        nat_of(*limit_denom) > 0,
    ensures
        r@ == pi_interval(nat_of(*newton_iterations), nat_of(*limit_denom)),
        r.wf(),
{
    let iter: u32 = small_value(newton_iterations);
    let k: u64 = (iter as u64) * 8;
    let mut a = Rational::from(3);
    let mut n: u64 = 0;
    while n < k
        invariant
            0 <= n <= k,
            k <= 0x8_0000_0000,
            a@ == pi_partial(n as nat),
            a.wf(),
        decreases k - n,
    {
        n = n + 1;
        let d = pi_term_of(n);
        a.add_assign(&d);
    }
    let mut b = a.clone();
    let d = pi_term_of(k + 1);
    b.add_assign(&d);
    proof {
        lemma_pi_partial_reduced(k as nat);
        lemma_pi_partial_reduced((k + 1) as nat);
        lemma_min_max(a@, b@);
    }
    let mut range = if a.le(&b) {
        RationalRange::from((a, b))
    } else {
        RationalRange::from((b, a))
    };
    range.to_with_denominator(limit_denom);
    range
}

/// Two plus the reciprocals of the factorials from `2!` to `m!`.
pub open spec fn euler_partial(m: nat) -> Fraction
    decreases m,
{
    if m < 2 {
        Fraction::from_int(2)
    } else {
        euler_partial((m - 1) as nat).add(Fraction { num: 1, den: factorial_of(m) as int })
    }
}

/// The enclosure of e between the partial sum up to `1 / (iter + 2)!` and
/// that sum plus the error bound `3 / (iter + 2)!`.
pub open spec fn euler_bounds(iter: nat) -> Interval {
    let lo = euler_partial(iter + 2);
    Interval { lo, hi: lo.add(Fraction { num: 3, den: factorial_of(iter + 2) as int }) }
}

/// The enclosure of e widened to endpoints with the denominator `cap`.
pub open spec fn euler_interval(iter: nat, cap: nat) -> Interval {
    euler_bounds(iter).coarsen(cap as int)
}

/// An enclosure of e: the sum `2 + 1/2! + ... + 1/(iter + 2)!` and that sum
/// plus `3 / (iter + 2)!`, widened to endpoints with the denominator
/// `limit_denom`.
pub fn compute_euler(newton_iterations: &BigUint, limit_denom: &BigUint) -> (r: RationalRange)
    requires
        nat_of(*newton_iterations) + 2 <= u32::MAX,
        nat_of(*limit_denom) > 0,
    ensures
        r@ == euler_interval(nat_of(*newton_iterations), nat_of(*limit_denom)),
        r.wf(),
{
    let iter: u32 = small_value(newton_iterations);
    let last: u32 = iter + 2;
    let mut min = Rational::from(2);
    let mut n: u32 = 1;
    while n < last
        invariant
            1 <= n <= last,
            min@ == euler_partial(n as nat),
            min.wf(),
        decreases last - n,
    {
        n = n + 1;
        let mut a = factorial(n);
        a.invert();
        min.add_assign(&a);
    }
    let mut max = min.clone();
    let error = Rational {
        sign: Sign::Pos,
        numer: big_from_u64(3),
        denom: factorial_biguint(last),
    };
    proof {
        lemma_factorial_positive(last as nat);
        lemma_value_add(min@, error@);
        lemma_value_order(min@, min@.add(error@));
        let e = error@;
        let x = e.num as real;
        let y = e.den as real;
        assert(x / y >= 0real) by (nonlinear_arith)
            requires
                x == 3real,
                y > 0real,
        ;
    }
    max.add_assign(&error);
    let mut range = RationalRange::from((min, max));
    range.to_with_denominator(limit_denom);
    range
}

/// `r` is the whole part of the `n`-th root of `a`.
pub open spec fn is_int_root(r: nat, a: nat, n: nat) -> bool {
    pow(r as int, n) <= a < pow(r as int + 1, n)
}

/// The whole part of the `n`-th root of `a`.
pub open spec fn int_root(a: nat, n: nat) -> nat {
    choose|r: nat| is_int_root(r, a, n)
}

/// Powers of whole numbers grow with a nonnegative base.
pub proof fn lemma_pow_base_monotone(a: int, b: int, n: nat)
    requires
        0 <= a <= b,
    ensures
        0 <= pow(a, n) <= pow(b, n),
        a < b && n >= 1 ==> pow(a, n) < pow(b, n),
    decreases n,
{
    reveal(pow);
    if n > 0 {
        lemma_pow_base_monotone(a, b, (n - 1) as nat);
        let p = pow(a, (n - 1) as nat);
        let q = pow(b, (n - 1) as nat);
        if b > 0 {
            lemma_pow_positive(b, (n - 1) as nat);
        }
        assert(0 <= a * p <= b * q && (a < b ==> a * p < b * q)) by (nonlinear_arith)
            requires
                0 <= a <= b,
                0 <= p <= q,
                a < b ==> q > 0,
        ;
    }
}

/// The whole part of a root is unique.
pub proof fn lemma_int_root_unique(r1: nat, r2: nat, a: nat, n: nat)
    requires
        n >= 1,
        is_int_root(r1, a, n),
        is_int_root(r2, a, n),
    ensures
        r1 == r2,
        r1 == int_root(a, n),
{
    if r1 < r2 {
        lemma_pow_base_monotone(r1 as int + 1, r2 as int, n);
    }
    if r2 < r1 {
        lemma_pow_base_monotone(r2 as int + 1, r1 as int, n);
    }
    let r = int_root(a, n);
    if r < r1 {
        lemma_pow_base_monotone(r as int + 1, r1 as int, n);
    }
    if r1 < r {
        lemma_pow_base_monotone(r1 as int + 1, r as int, n);
    }
}

/// The whole part of the `n`-th root of a big integer.
pub fn integer_root(a: &BigUint, n: u32) -> (r: BigUint)
    requires
        n >= 1,
    ensures
        nat_of(r) == int_root(nat_of(*a), n as nat),
        is_int_root(nat_of(r), nat_of(*a), n as nat),
        nat_of(*a) >= 1 ==> nat_of(r) >= 1,
{
    let r = big_nth_root(a, n);
    proof {
        lemma_int_root_unique(nat_of(r), nat_of(r), nat_of(*a), n as nat);
        lemma1_pow(n as nat);
    }
    r
}

/// The first, coarse enclosure of the `q`-th root of a positive fraction,
/// from the whole parts of the roots of its numerator and denominator.
pub open spec fn root_start(v: Fraction, q: nat) -> Interval {
    let nr = int_root(abs(v.num), q) as int;
    let dr = int_root(abs(v.den), q) as int;
    Interval { lo: Fraction { num: nr, den: dr + 1 }, hi: Fraction { num: nr + 1, den: dr } }
}

/// The first, coarse enclosure of the root of a positive rational.
fn initial_root_bounds(base: &Rational, root: u32) -> (r: RationalRange)
    requires
        base.wf(),
        base@.num > 0,
        root >= 1,
    ensures
        r@ == root_start(base@, root as nat),
        r.wf(),
        r@.lo.num > 0,
{
    let numer_root = integer_root(&base.numer, root);
    let denom_root = integer_root(&base.denom, root);
    let one = big_from_u64(1);
    let min_root = Rational {
        sign: Sign::Pos,
        numer: big_clone(&numer_root),
        denom: big_add(&denom_root, &one),
    };
    let max_root = Rational { sign: Sign::Pos, numer: big_add(&numer_root, &one), denom: denom_root };
    proof {
        let nr = nat_of(numer_root) as int;
        let dr = nat_of(denom_root) as int;
        assert(nr * dr <= (nr + 1) * (dr + 1)) by (nonlinear_arith)
            requires
                nr >= 0,
                dr >= 0,
        ;
    }
    RationalRange::from((min_root, max_root))
}

/// The middle of an interval.
pub open spec fn midpoint(g: Interval) -> Fraction {
    g.lo.add(g.hi).mul(Fraction { num: 1, den: 2 })
}

/// The slope of `x ^ q` at `x`: `q * x ^ (q - 1)`.
pub open spec fn slope(x: Fraction, q: nat) -> Fraction {
    x.pow((q - 1) as nat).mul(Fraction::from_int(q as int))
}

/// What one step of Newton's method on `x ^ q - v = 0` proposes for the
/// bracket `g`: the midpoint less the quotients of the function's value at
/// the midpoint by the slopes at the two ends.
pub open spec fn newton_candidate(g: Interval, v: Fraction, q: nat) -> Interval {
    let m = midpoint(g);
    let f = m.pow(q).sub(v);
    let a = f.div(slope(g.lo, q));
    let b = f.div(slope(g.hi, q));
    Interval { lo: m.sub(a.max(b)), hi: m.sub(a.min(b)) }
}

/// The bracket `g` with each end replaced by the proposed end where that
/// lies within `g`; `g` itself where the ends so chosen would cross.
pub open spec fn tighten(g: Interval, c: Interval) -> Interval {
    let lo = if g.lo.le(c.lo) && c.lo.le(g.hi) {
        c.lo
    } else {
        g.lo
    };
    let hi = if g.lo.le(c.hi) && c.hi.le(g.hi) {
        c.hi
    } else {
        g.hi
    };
    if lo.le(hi) {
        Interval { lo, hi }
    } else {
        g
    }
}

/// One step of Newton's method: the proposal, widened to the denominator
/// `d`, taken into the bracket.
pub open spec fn newton_step_of(g: Interval, v: Fraction, q: nat, d: int) -> Interval {
    tighten(g, newton_candidate(g, v, q).coarsen(d))
}

/// The bracket after `k` steps of Newton's method.
pub open spec fn newton_iterate(g: Interval, v: Fraction, q: nat, d: int, k: nat) -> Interval
    decreases k,
{
    if k == 0 {
        g
    } else {
        newton_step_of(newton_iterate(g, v, q, d, (k - 1) as nat), v, q, d)
    }
}

/// The enclosure of the `q`-th root of `v`: `v` itself for `q == 1`, zero
/// for zero, `iter` steps of Newton's method from the coarse enclosure for a
/// positive `v`, and the mirrored enclosure of the root of `-v` for a
/// negative `v`.
pub open spec fn root_of(v: Fraction, q: nat, iter: nat, d: int) -> Interval {
    if q == 1 {
        Interval::point(v)
    } else if v.num == 0 {
        Interval::point(Fraction::from_int(0))
    } else if v.num > 0 {
        newton_iterate(root_start(v, q), v, q, d, iter)
    } else {
        let r = newton_iterate(root_start(v.neg(), q), v.neg(), q, d, iter);
        Interval { lo: r.hi.neg(), hi: r.lo.neg() }
    }
}

/// The enclosure of the `q`-th roots of the points of an interval: from the
/// lower end of the enclosure of the root of its lower end to the upper end
/// of the enclosure of the root of its upper end.
pub open spec fn root_interval(p: Interval, q: nat, iter: nat, d: int) -> Interval {
    let lo = root_of(p.lo, q, iter, d).lo;
    let hi = root_of(p.hi, q, iter, d).hi;
    if lo.le(hi) {
        Interval { lo, hi }
    } else {
        Interval { lo: hi, hi: lo }
    }
}

/// The middle of a range.
fn rational_range_midpoint(x: &RationalRange) -> (r: Rational)
    requires
        x.wf(),
    ensures
        r@ == midpoint(x@),
        r.canonical(),
{
    let half = Rational { sign: Sign::Pos, numer: big_from_u64(1), denom: big_from_u64(2) };
    let mut a = x.min.clone();
    a.add_assign(&x.max);
    a.mul_assign(&half);
    a
}

/// The slope at a positive point is positive.
pub proof fn lemma_slope_positive(x: Fraction, q: nat)
    requires
        x.wf(),
        x.num > 0,
        q >= 1,
    ensures
        slope(x, q).wf(),
        slope(x, q).num > 0,
        slope(x, q).value() > 0real,
{
    let k = (q - 1) as nat;
    lemma_value_pow(x, k);
    lemma_sign_of_value(x);
    lemma_real_pow_sign(x.value(), k);
    lemma_from_int_reduced(q as int);
    lemma_value_mul(x.pow(k), Fraction::from_int(q as int));
    lemma_sign_of_value(Fraction::from_int(q as int));
    lemma_sign_of_value(slope(x, q));
    let a = x.pow(k).value();
    let b = Fraction::from_int(q as int).value();
    assert(a * b > 0real) by (nonlinear_arith)
        requires
            a > 0real,
            b > 0real,
    ;
}

/// One step of Newton's method on `x ^ root - base = 0`.
fn newton_step(guess: &RationalRange, base: &Rational, root: u32, limit_denom: &BigUint) -> (r:
    RationalRange)
    requires
        guess.wf(),
        guess@.lo.num > 0,
        base.wf(),
        1 <= root <= 12,
        nat_of(*limit_denom) > 0,
    ensures
        r@ == newton_step_of(guess@, base@, root as nat, nat_of(*limit_denom) as int),
        r.wf(),
        r@.lo.num > 0,
{
    let ghost g = guess@;
    let ghost q = root as nat;
    let ghost d = nat_of(*limit_denom) as int;
    let mid = rational_range_midpoint(guess);
    let whole = big_from_u64(root as u64);
    let less = big_from_u64((root - 1) as u64);
    let mut f = mid.clone();
    f.powi(&whole);
    f.sub_assign(base);
    let factor = Rational::from(root as isize);
    proof {
        lemma_value_order(g.lo, g.hi);
        lemma_sign_of_value(g.lo);
        lemma_sign_of_value(g.hi);
        lemma_slope_positive(g.lo, q);
        lemma_slope_positive(g.hi, q);
    }
    let mut slope_lo = guess.min.clone();
    slope_lo.powi(&less);
    slope_lo.mul_assign(&factor);
    let mut slope_hi = guess.max.clone();
    slope_hi.powi(&less);
    slope_hi.mul_assign(&factor);
    let mut a = f.clone();
    a.div_assign(&slope_lo);
    let mut b = f;
    b.div_assign(&slope_hi);
    proof {
        lemma_min_max(a@, b@);
    }
    let a_first = a.le(&b);
    let mut cand_lo = mid.clone();
    let mut cand_hi = mid;
    if a_first {
        cand_lo.sub_assign(&b);
        cand_hi.sub_assign(&a);
    } else {
        cand_lo.sub_assign(&a);
        cand_hi.sub_assign(&b);
    }
    proof {
        lemma_value_rounding(cand_lo@, d);
        lemma_value_rounding(cand_hi@, d);
    }
    cand_lo.to_with_denominator(limit_denom, false);
    cand_hi.to_with_denominator(limit_denom, true);
    let lo_fits = guess.min.le(&cand_lo) && cand_lo.le(&guess.max);
    let hi_fits = guess.min.le(&cand_hi) && cand_hi.le(&guess.max);
    let new_lo = if lo_fits {
        cand_lo
    } else {
        guess.min.clone()
    };
    let new_hi = if hi_fits {
        cand_hi
    } else {
        guess.max.clone()
    };
    proof {
        lemma_value_order(g.lo, new_lo@);
        lemma_sign_of_value(new_lo@);
    }
    if new_lo.le(&new_hi) {
        RationalRange::from((new_lo, new_hi))
    } else {
        guess.clone()
    }
}

/// An enclosure of the `root`-th root of `base` by Newton's method on
/// `x ^ root - base = 0`, run for `newton_iterations` steps with every step
/// widened to the denominator `limit_denom`.
pub fn nth_root(base: &Rational, root: u32, newton_iterations: u32, limit_denom: &BigUint) -> (r:
    RationalRange)
    requires
        base.wf(),
        1 <= root <= 12,
        nat_of(*limit_denom) > 0,
        base@.num >= 0 || root % 2 == 1,
    ensures
        r@ == root_of(
            base@,
            root as nat,
            newton_iterations as nat,
            nat_of(*limit_denom) as int,
        ),
        r.wf(),
        base@.num > 0 ==> r@.lo.num > 0,
        base@.num < 0 ==> r@.hi.num < 0,
        base@.num == 0 ==> r@.lo.num == 0 && r@.hi.num == 0,
{
    if root == 1 {
        return RationalRange::from((base.clone(), base.clone()));
    }
    if base.is_zero() {
        return RationalRange::from((Rational::zero(), Rational::zero()));
    }
    let negative = base.is_negative();
    let mut target = base.clone();
    if negative {
        target.negate();
    }
    let mut guess = initial_root_bounds(&target, root);
    let mut k: u32 = 0;
    while k < newton_iterations
        invariant
            0 <= k <= newton_iterations,
            target.wf(),
            1 <= root <= 12,
            nat_of(*limit_denom) > 0,
            guess.wf(),
            guess@.lo.num > 0,
            guess@ == newton_iterate(
                root_start(target@, root as nat),
                target@,
                root as nat,
                nat_of(*limit_denom) as int,
                k as nat,
            ),
        decreases newton_iterations - k,
    {
        guess = newton_step(&guess, &target, root, limit_denom);
        k = k + 1;
    }
    if negative {
        let RationalRange { min, max } = guess;
        let mut lo = max;
        let mut hi = min;
        proof {
            lemma_value_neg(lo@);
            lemma_value_neg(hi@);
            lemma_value_order(hi@, lo@);
            lemma_value_order(lo@.neg(), hi@.neg());
            lemma_sign_of_value(hi@);
            lemma_sign_of_value(hi@.neg());
        }
        lo.negate();
        hi.negate();
        RationalRange::from((lo, hi))
    } else {
        guess
    }
}

/// An enclosure of the `root`-th roots of the points of `base`.
pub fn nth_root_range(
    base: &RationalRange,
    root: u32,
    newton_iterations: u32,
    limit_denom: &BigUint,
) -> (r: RationalRange)
    requires
        base.wf(),
        1 <= root <= 12,
        nat_of(*limit_denom) > 0,
        base@.lo.num >= 0 || root % 2 == 1,
    ensures
        r@ == root_interval(
            base@,
            root as nat,
            newton_iterations as nat,
            nat_of(*limit_denom) as int,
        ),
        r.wf(),
        base@.lo.num > 0 ==> r@.lo.num > 0,
        base@.hi.num < 0 ==> r@.hi.num < 0,
{
    proof {
        lemma_value_order(base@.lo, base@.hi);
        lemma_sign_of_value(base@.lo);
        lemma_sign_of_value(base@.hi);
    }
    let low = nth_root(&base.min, root, newton_iterations, limit_denom);
    let high = nth_root(&base.max, root, newton_iterations, limit_denom);
    let lo = low.min;
    let hi = high.max;
    proof {
        lemma_value_order(lo@, hi@);
        lemma_value_order(hi@, lo@);
        lemma_value_order(low@.lo, low@.hi);
        lemma_value_order(high@.lo, high@.hi);
        lemma_sign_of_value(lo@);
        lemma_sign_of_value(hi@);
        lemma_sign_of_value(low@.hi);
        lemma_sign_of_value(high@.lo);
    }
    if lo.le(&hi) {
        RationalRange::from((lo, hi))
    } else {
        RationalRange::from((hi, lo))
    }
}

/// Whether the interval `base` can be raised to the exponent `e`: the
/// exponent is in lowest terms, not zero and at most eight, its numerator
/// and denominator are at most twelve in magnitude, no root of even degree
/// is taken of a negative number, and no reciprocal of zero.
pub open spec fn pow_defined(base: Interval, e: Fraction) -> bool {
    &&& e.reduced()
    &&& e.num != 0
    &&& e.le(Fraction::from_int(8))
    &&& -12 <= e.num <= 12
    &&& e.den <= 12
    &&& e.den % 2 == 0 ==> base.lo.num >= 0
    &&& e.num < 0 ==> base.excludes_zero()
}

/// The `p`-th powers of the points of an interval. Odd powers and powers of
/// nonnegative numbers keep the order of the ends, even powers of negative
/// numbers reverse it, and an even power of an interval around zero reaches
/// down to zero.
pub open spec fn integer_pow_interval(base: Interval, p: nat) -> Interval {
    let a = base.lo.pow(p);
    let b = base.hi.pow(p);
    if p % 2 == 1 || base.lo.num >= 0 {
        Interval { lo: a, hi: b }
    } else if base.hi.num <= 0 {
        Interval { lo: b, hi: a }
    } else {
        Interval { lo: Fraction::from_int(0), hi: a.max(b) }
    }
}

/// The enclosure of the powers `x ^ e` of the points `x` of `base`: the
/// interval raised to the magnitude of the numerator of `e`, the root of
/// the degree of its denominator taken of that, and the reciprocal of the
/// result for a negative `e`. The exponent one leaves the interval as it is.
pub open spec fn interval_pow(base: Interval, e: Fraction, iter: nat, d: int) -> Interval {
    if e == Fraction::from_int(1) {
        base
    } else {
        let powered = integer_pow_interval(base, abs(e.num));
        let rooted = root_interval(powered, e.den as nat, iter, d);
        if e.num < 0 {
            rooted.recip()
        } else {
            rooted
        }
    }
}

/// The powers of the points of an interval form an interval, which lies on
/// the side of zero that the powers of its points lie on.
pub proof fn lemma_integer_pow_interval(base: Interval, p: nat)
    requires
        base.wf(),
        p >= 1,
    ensures
        integer_pow_interval(base, p).wf(),
        base.lo.num >= 0 ==> integer_pow_interval(base, p).lo.num >= 0,
        base.lo.num > 0 ==> integer_pow_interval(base, p).lo.num > 0,
        base.hi.num < 0 ==> integer_pow_interval(base, p).excludes_zero(),
        p % 2 == 0 ==> integer_pow_interval(base, p).lo.num >= 0,
{
    let a = base.lo.pow(p);
    let b = base.hi.pow(p);
    let x = base.lo.value();
    let y = base.hi.value();
    lemma_value_pow(base.lo, p);
    lemma_value_pow(base.hi, p);
    lemma_value_order(base.lo, base.hi);
    lemma_value_order(a, b);
    lemma_value_order(b, a);
    lemma_sign_of_value(base.lo);
    lemma_sign_of_value(base.hi);
    lemma_sign_of_value(a);
    lemma_sign_of_value(b);
    lemma_from_int_reduced(0);
    crate::fraction::lemma_from_int_value(0);
    let r = integer_pow_interval(base, p);
    lemma_value_order(r.lo, r.hi);
    lemma_sign_of_value(r.lo);
    lemma_sign_of_value(r.hi);
    if x >= 0real {
        lemma_real_pow_monotone(x, y, p);
        lemma_real_pow_sign(x, p);
    } else if p % 2 == 1 {
        lemma_real_pow_odd_monotone(x, y, p);
        if y < 0real {
            lemma_real_pow_odd_monotone(y, y, p);
        }
    } else if y <= 0real {
        lemma_real_pow_even(x, y, p);
    } else {
        lemma_real_pow_even(x, x, p);
        lemma_real_pow_sign(y, p);
    }
}

/// Whether `base` can be raised to the exponent `exp`.
pub fn pow_is_defined(base: &RationalRange, exp: &Rational) -> (r: bool)
    requires
        base.wf(),
        exp.wf(),
    ensures
        r == pow_defined(base@, exp@),
{
    if !exp.is_simplified() || exp.is_zero() {
        return false;
    }
    let eight = Rational::from(8);
    if !exp.le(&eight) {
        return false;
    }
    let small_numer = match biguint_to_u32(&exp.numer) {
        Some(p) => p <= 12,
        None => false,
    };
    let small_denom = match biguint_to_u32(&exp.denom) {
        Some(q) => q <= 12,
        None => false,
    };
    if !small_numer || !small_denom {
        return false;
    }
    if !exp.is_denom_odd() && base.min.is_negative() {
        return false;
    }
    if exp.is_negative() {
        let positive = !base.min.is_negative() && !base.min.is_zero();
        if !positive && !base.max.is_negative() {
            return false;
        }
    }
    true
}

/// An enclosure of the powers `x ^ exp` of the points `x` of `base`.
pub fn rational_range_pow(
    base: &RationalRange,
    exp: &Rational,
    newton_iterations: &BigUint,
    limit_denom: &BigUint,
) -> (r: RationalRange)
    requires
        base.wf(),
        exp.wf(),
        pow_defined(base@, exp@),
        nat_of(*newton_iterations) <= u32::MAX,
        nat_of(*limit_denom) > 0,
    ensures
        r@ == interval_pow(
            base@,
            exp@,
            nat_of(*newton_iterations),
            nat_of(*limit_denom) as int,
        ),
        r.wf(),
{
    let one = Rational::one();
    if exp.eq(&one) {
        proof {
            lemma_reduced_unique(exp@, one@);
        }
        return base.clone();
    }
    proof {
        if exp@ == Fraction::from_int(1) {
            assert(exp@.eqv(one@));
        }
    }
    let iter: u32 = small_value(newton_iterations);
    let root: u32 = small_value(&exp.denom);
    let ghost p = abs(exp@.num);
    proof {
        assert(p == nat_of(exp.numer));
        lemma_integer_pow_interval(base@, p);
    }
    let mut a = base.min.clone();
    a.powi(&exp.numer);
    let mut b = base.max.clone();
    b.powi(&exp.numer);
    let odd = crate::bignat::big_bit(&exp.numer, 0);
    proof {
        vstd::arithmetic::power2::lemma2_to64();
        assert(nat_of(exp.numer) / 1 == nat_of(exp.numer));
        assert(odd == (p % 2 == 1));
    }
    let powered = if odd || !base.min.is_negative() {
        RationalRange::from((a, b))
    } else if base.max.is_negative() || base.max.is_zero() {
        RationalRange::from((b, a))
    } else {
        let top = if b.le(&a) {
            a
        } else {
            b
        };
        RationalRange::from((Rational::zero(), top))
    };
    proof {
        assert(powered@ == integer_pow_interval(base@, p));
    }
    let mut rooted = nth_root_range(&powered, root, iter, limit_denom);
    if exp.is_negative() {
        rooted.reciprocate();
    }
    rooted
}

} // verus!
