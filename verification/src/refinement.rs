//! More effort never loses ground: the enclosures of the constants and the
//! brackets of Newton's method only narrow as the effort and the
//! denominator grow.

use crate::byzantine::TransitiveConsts;
use crate::enclosure::lemma_root_of_bounds;
use crate::expr::{lemma_canonical_parts, terms_comparable, Expr};
use crate::fraction::{
    lemma_cast_mul, lemma_from_int_value, lemma_real_pow_sign, lemma_value_add, lemma_value_order,
    lemma_value_pow, lemma_value_rounding, real_pow, Fraction,
};
use crate::neoprene::{eval, eval_const, eval_pow, eval_prod, eval_sum, params_valid};
use crate::neoprene_taylor::{
    euler_bounds, euler_partial, factorial_of, integer_pow_interval, interval_pow,
    lemma_factorial_positive, lemma_integer_pow_interval, lemma_min_max,
    lemma_pi_partial_reduced, lemma_pi_term_wf, newton_candidate, newton_iterate, newton_step_of,
    pi_bounds, pi_partial, pi_term, pow_defined, root_interval, root_of, tighten,
};
use crate::rational_range::{
    lemma_add_sound, lemma_coarsen_sound, lemma_mul_by_cases, lemma_mul_sound, lemma_recip_sound,
    lemma_scale_sound, lemma_sign_of_value, max4, min4, Interval,
};
use vstd::math::abs;
use vstd::arithmetic::div_mod::lemma_fundamental_div_mod;
use vstd::prelude::*;

verus! {

/// The size of the `n`-th term of the series for pi.
pub open spec fn pi_term_size(n: nat) -> real {
    4real / (((2 * n) * (2 * n + 1) * (2 * n + 2)) as real)
}

/// The terms of the series for pi alternate in sign and shrink in size.
pub proof fn lemma_pi_term_value(n: nat)
    requires
        n >= 1,
    ensures
        pi_term(n).value() == (if n % 2 == 1 {
            pi_term_size(n)
        } else {
            -pi_term_size(n)
        }),
        0real < pi_term_size(n + 1) < pi_term_size(n),
{
    let d = ((2 * n) * (2 * n + 1) * (2 * n + 2)) as int;
    let e = ((2 * (n + 1)) * (2 * (n + 1) + 1) * (2 * (n + 1) + 2)) as int;
    assert(0 < d < e) by (nonlinear_arith)
        requires
            n >= 1,
            d == (2 * n) * (2 * n + 1) * (2 * n + 2),
            e == (2 * (n + 1)) * (2 * (n + 1) + 1) * (2 * (n + 1) + 2),
    ;
    let x = d as real;
    let y = e as real;
    assert(0real < 4real / y < 4real / x && (-4real) / x == -(4real / x)) by (nonlinear_arith)
        requires
            0real < x < y,
    ;
    assert(4 as real == 4real);
    assert((-4) as real == -4real);
}

/// A partial sum of the series for pi is the one before plus a term.
pub proof fn lemma_pi_partial_value(k: nat)
    requires
        k >= 1,
    ensures
        pi_partial(k).value() == pi_partial((k - 1) as nat).value() + pi_term(k).value(),
{
    lemma_pi_partial_reduced((k - 1) as nat);
    lemma_pi_term_wf(k);
    lemma_value_add(pi_partial((k - 1) as nat), pi_term(k));
}

/// The partial sums after an even number of terms rise, those after an odd
/// number fall, and every one of the first is below every one of the
/// second.
pub proof fn lemma_pi_partial_nested(m: nat, n: nat)
    requires
        m <= n,
    ensures
        pi_partial(2 * m).value() <= pi_partial(2 * n).value(),
        pi_partial(2 * n).value() < pi_partial(2 * n + 1).value(),
        pi_partial(2 * n + 1).value() <= pi_partial(2 * m + 1).value(),
    decreases n - m,
{
    lemma_pi_partial_value(2 * n + 1);
    lemma_pi_term_value(2 * n + 1);
    if m < n {
        let j = (n - 1) as nat;
        lemma_pi_partial_nested(m, j);
        lemma_pi_partial_value(2 * j + 1);
        lemma_pi_partial_value(2 * j + 2);
        lemma_pi_partial_value(2 * j + 3);
        lemma_pi_term_value(2 * j + 1);
        lemma_pi_term_value(2 * j + 2);
        lemma_pi_term_value(2 * j + 3);
    }
}

/// The enclosure of pi between two partial sums narrows with the effort.
pub proof fn lemma_pi_bounds_narrow(i: nat, j: nat)
    requires
        i <= j,
    ensures
        pi_bounds(i).wf(),
        pi_bounds(j).wf(),
        pi_bounds(j).within(pi_bounds(i)),
        pi_bounds(i).lo == pi_partial(8 * i),
        pi_bounds(i).hi == pi_partial(8 * i + 1),
{
    lemma_pi_partial_nested(4 * i, 4 * j);
    lemma_pi_partial_nested(4 * i, 4 * i);
    lemma_pi_partial_reduced(8 * i);
    lemma_pi_partial_reduced(8 * i + 1);
    lemma_pi_partial_reduced(8 * j);
    lemma_pi_partial_reduced(8 * j + 1);
    lemma_min_max(pi_partial(8 * i), pi_partial(8 * i + 1));
    lemma_min_max(pi_partial(8 * j), pi_partial(8 * j + 1));
    lemma_value_order(pi_partial(8 * i), pi_partial(8 * i + 1));
    lemma_value_order(pi_partial(8 * j), pi_partial(8 * j + 1));
}

/// The enclosure of pi shrinks to a point: its width at the effort `i` is
/// the size of one term of the series, which is below `1 / (i + 1)`.
pub proof fn lemma_pi_bounds_width(i: nat)
    ensures
        pi_bounds(i).hi.value() - pi_bounds(i).lo.value() == pi_term_size(8 * i + 1),
        pi_term_size(8 * i + 1) < 1real / ((i + 1) as real),
{
    lemma_pi_bounds_narrow(i, i);
    lemma_pi_partial_value(8 * i + 1);
    lemma_pi_term_value(8 * i + 1);
    let n = 8 * i + 1;
    let d = ((2 * n) * (2 * n + 1) * (2 * n + 2)) as int;
    assert(d > 4 * (i + 1)) by (nonlinear_arith)
        requires
            n == 8 * i + 1,
            d == (2 * n) * (2 * n + 1) * (2 * n + 2),
    ;
    let x = d as real;
    let y = (i + 1) as real;
    assert(4real / x < 1real / y) by (nonlinear_arith)
        requires
            x > 4real * y,
            y >= 1real,
    ;
}

/// The partial sums of the series for e are fractions in lowest terms, and
/// each is the one before plus the reciprocal of a factorial.
pub proof fn lemma_euler_partial_value(m: nat)
    ensures
        euler_partial(m).reduced(),
        m >= 2 ==> euler_partial(m).value() == euler_partial((m - 1) as nat).value() + 1real / (
        factorial_of(m) as real),
    decreases m,
{
    if m < 2 {
        crate::fraction::lemma_from_int_reduced(2);
    } else {
        lemma_euler_partial_value((m - 1) as nat);
        lemma_factorial_positive(m);
        let t = Fraction { num: 1, den: factorial_of(m) as int };
        lemma_value_add(euler_partial((m - 1) as nat), t);
        assert(1 as real == 1real);
    }
}

/// The error bound of the series for e after the term `1 / m!`.
pub open spec fn euler_error(m: nat) -> real {
    3real / (factorial_of(m) as real)
}

/// The enclosure of e between a partial sum and that sum plus the error
/// bound narrows with the effort.
pub proof fn lemma_euler_bounds_narrow(i: nat, j: nat)
    requires
        i <= j,
    ensures
        euler_bounds(i).wf(),
        euler_bounds(j).wf(),
        euler_bounds(j).within(euler_bounds(i)),
    decreases j - i,
{
    lemma_euler_bounds_value(i);
    lemma_euler_bounds_value(j);
    if i < j {
        let k = (j - 1) as nat;
        lemma_euler_bounds_narrow(i, k);
        lemma_euler_bounds_value(k);
        // from k to j: the lower end gains 1 / (k + 3)!, the error bound
        // falls from 3 / (k + 2)! to 3 / (k + 3)!
        lemma_euler_partial_value(k + 3);
        lemma_factorial_positive(k + 2);
        lemma_factorial_positive(k + 3);
        let f = factorial_of(k + 2) as int;
        let g = factorial_of(k + 3) as int;
        assert(g == (k + 3) * f);
        lemma_cast_mul((k + 3) as int, f);
        let x = f as real;
        let y = g as real;
        let n = (k + 3) as real;
        assert(1real / y + 3real / y <= 3real / x && 1real / y >= 0real) by (nonlinear_arith)
            requires
                y == n * x,
                n >= 3real,
                x > 0real,
        ;
    }
}

/// The ends of the enclosure of e.
pub proof fn lemma_euler_bounds_value(i: nat)
    ensures
        euler_bounds(i).wf(),
        euler_bounds(i).lo.value() == euler_partial(i + 2).value(),
        euler_bounds(i).hi.value() == euler_partial(i + 2).value() + euler_error(i + 2),
{
    lemma_euler_partial_value(i + 2);
    lemma_factorial_positive(i + 2);
    let t = Fraction { num: 3, den: factorial_of(i + 2) as int };
    lemma_value_add(euler_partial(i + 2), t);
    assert(3 as real == 3real);
    let y = factorial_of(i + 2) as real;
    assert(3real / y >= 0real) by (nonlinear_arith)
        requires
            y > 0real,
    ;
    lemma_value_order(euler_bounds(i).lo, euler_bounds(i).hi);
}

/// Rounding down to a denominator gives the greatest multiple of its unit
/// that is not above the number.
pub proof fn lemma_floor_greatest(x: Fraction, d: int, k: int)
    requires
        x.wf(),
        d > 0,
        k * x.den <= x.num * d,
    ensures
        k <= x.floor_to(d).num,
{
    let n = x.num * d;
    lemma_fundamental_div_mod(n, x.den);
    let q = n / x.den;
    assert(k <= q) by (nonlinear_arith)
        requires
            k * x.den <= n,
            n == x.den * q + n % x.den,
            0 <= n % x.den < x.den,
    ;
}

/// Rounding up to a denominator gives the least multiple of its unit that
/// is not below the number.
pub proof fn lemma_ceil_least(x: Fraction, d: int, k: int)
    requires
        x.wf(),
        d > 0,
        x.num * d <= k * x.den,
    ensures
        x.ceil_to(d).num <= k,
{
    let n = -x.num * d;
    lemma_fundamental_div_mod(n, x.den);
    let q = n / x.den;
    assert(-k <= q) by (nonlinear_arith)
        requires
            x.num * d <= k * x.den,
            n == -x.num * d,
            n == x.den * q + n % x.den,
            0 <= n % x.den < x.den,
    ;
}

/// Widening to a finer denominator loses less: an interval within another,
/// widened to a multiple of a denominator, lies within the other widened
/// to that denominator.
pub proof fn lemma_coarsen_narrow(a: Interval, b: Interval, d: int, m: int)
    requires
        a.wf(),
        b.wf(),
        a.within(b),
        d > 0,
        m >= 1,
    ensures
        d * m > 0,
        a.coarsen(d * m).wf(),
        b.coarsen(d).wf(),
        a.coarsen(d * m).within(b.coarsen(d)),
{
    let e = d * m;
    assert(e > 0) by (nonlinear_arith)
        requires
            e == d * m,
            d > 0,
            m >= 1,
    ;
    lemma_value_rounding(a.lo, e);
    lemma_value_rounding(a.hi, e);
    lemma_value_rounding(b.lo, d);
    lemma_value_rounding(b.hi, d);
    lemma_value_order(a.lo, a.hi);
    lemma_value_order(b.lo, b.hi);
    lemma_value_order(a.coarsen(e).lo, a.coarsen(e).hi);
    lemma_value_order(b.coarsen(d).lo, b.coarsen(d).hi);
    // the lower ends
    let k = b.lo.floor_to(d).num;
    let low = Fraction { num: k, den: d };
    lemma_value_order(low, a.lo);
    assert(k * a.lo.den <= a.lo.num * d);
    assert((k * m) * a.lo.den <= a.lo.num * e) by (nonlinear_arith)
        requires
            k * a.lo.den <= a.lo.num * d,
            e == d * m,
            m >= 1,
    ;
    lemma_floor_greatest(a.lo, e, k * m);
    let low_fine = Fraction { num: k * m, den: e };
    lemma_value_order(low, low_fine);
    assert(k * e == (k * m) * d) by (nonlinear_arith)
        requires
            e == d * m,
    ;
    lemma_value_order(low_fine, a.lo.floor_to(e));
    assert((k * m) * e <= a.lo.floor_to(e).num * e) by (nonlinear_arith)
        requires
            k * m <= a.lo.floor_to(e).num,
            e > 0,
    ;
    // the upper ends
    let h = b.hi.ceil_to(d).num;
    let high = Fraction { num: h, den: d };
    lemma_value_order(a.hi, high);
    assert(a.hi.num * d <= h * a.hi.den);
    assert(a.hi.num * e <= (h * m) * a.hi.den) by (nonlinear_arith)
        requires
            a.hi.num * d <= h * a.hi.den,
            e == d * m,
            m >= 1,
    ;
    lemma_ceil_least(a.hi, e, h * m);
    let high_fine = Fraction { num: h * m, den: e };
    lemma_value_order(high_fine, high);
    assert((h * m) * d == h * e) by (nonlinear_arith)
        requires
            e == d * m,
    ;
    lemma_value_order(a.hi.ceil_to(e), high_fine);
    assert(a.hi.ceil_to(e).num * e <= (h * m) * e) by (nonlinear_arith)
        requires
            a.hi.ceil_to(e).num <= h * m,
            e > 0,
    ;
}

/// Monotone refinement of the constants: with more effort and a denominator
/// that is a multiple of the one before, as in the steps of a comparison,
/// the interval of a constant lies within the one before.
pub proof fn lemma_constant_narrows(c: TransitiveConsts, i: nat, j: nat, cap: nat, m: nat)
    requires
        i <= j,
        cap > 0,
        m >= 1,
    ensures
        eval_const(c, i, cap).wf(),
        eval_const(c, j, cap * m).wf(),
        eval_const(c, j, cap * m).within(eval_const(c, i, cap)),
{
    assert((cap * m) as int == (cap as int) * (m as int)) by (nonlinear_arith);
    match c {
        TransitiveConsts::Pi => {
            lemma_pi_bounds_narrow(i, j);
            lemma_coarsen_narrow(pi_bounds(j), pi_bounds(i), cap as int, m as int);
        },
        TransitiveConsts::Euler => {
            lemma_euler_bounds_narrow(i, j);
            lemma_coarsen_narrow(euler_bounds(j), euler_bounds(i), cap as int, m as int);
        },
    }
}

/// A step of Newton's method never widens the bracket.
pub proof fn lemma_newton_step_narrows(g: Interval, v: Fraction, q: nat, d: int)
    requires
        g.wf(),
        d > 0,
    ensures
        newton_step_of(g, v, q, d).wf(),
        newton_step_of(g, v, q, d).within(g),
{
    let c = newton_candidate(g, v, q).coarsen(d);
    let r = tighten(g, c);
    lemma_value_order(g.lo, g.hi);
    lemma_value_order(g.lo, r.lo);
    lemma_value_order(r.hi, g.hi);
    lemma_value_order(r.lo, r.hi);
}

/// The brackets of Newton's method narrow from step to step.
pub proof fn lemma_newton_iterate_narrows(
    g: Interval,
    v: Fraction,
    q: nat,
    d: int,
    j: nat,
    k: nat,
)
    requires
        g.wf(),
        d > 0,
        j <= k,
    ensures
        newton_iterate(g, v, q, d, j).wf(),
        newton_iterate(g, v, q, d, k).wf(),
        newton_iterate(g, v, q, d, k).within(newton_iterate(g, v, q, d, j)),
    decreases k,
{
    if k == 0 {
        lemma_value_order(g.lo, g.hi);
    } else if j == k {
        lemma_newton_iterate_narrows(g, v, q, d, 0, (k - 1) as nat);
        lemma_newton_step_narrows(newton_iterate(g, v, q, d, (k - 1) as nat), v, q, d);
        let r = newton_iterate(g, v, q, d, k);
        lemma_value_order(r.lo, r.hi);
    } else {
        lemma_newton_iterate_narrows(g, v, q, d, j, (k - 1) as nat);
        lemma_newton_step_narrows(newton_iterate(g, v, q, d, (k - 1) as nat), v, q, d);
    }
}

/// The ends of a well-formed interval are points of it.
pub proof fn lemma_ends_contained(a: Interval)
    requires
        a.wf(),
    ensures
        a.contains(a.lo.value()),
        a.contains(a.hi.value()),
{
    lemma_value_order(a.lo, a.hi);
}

/// The sum of narrower intervals is narrower.
pub proof fn lemma_add_narrow(a: Interval, a2: Interval, b: Interval, b2: Interval)
    requires
        a.wf(),
        a2.wf(),
        b.wf(),
        b2.wf(),
        a.within(a2),
        b.within(b2),
    ensures
        a.add(b).wf(),
        a2.add(b2).wf(),
        a.add(b).within(a2.add(b2)),
{
    lemma_ends_contained(a);
    lemma_ends_contained(b);
    lemma_ends_contained(a2);
    lemma_ends_contained(b2);
    lemma_add_sound(a, b, a.lo.value(), b.lo.value());
    lemma_add_sound(a2, b2, a.lo.value(), b.lo.value());
    lemma_add_sound(a2, b2, a.hi.value(), b.hi.value());
    lemma_value_add(a.lo, b.lo);
    lemma_value_add(a.hi, b.hi);
}

/// The product of narrower intervals is narrower.
pub proof fn lemma_mul_narrow(a: Interval, a2: Interval, b: Interval, b2: Interval)
    requires
        a.wf(),
        a2.wf(),
        b.wf(),
        b2.wf(),
        a.within(a2),
        b.within(b2),
    ensures
        a.mul(b).wf(),
        a2.mul(b2).wf(),
        a.mul(b).within(a2.mul(b2)),
{
    lemma_ends_contained(a);
    lemma_ends_contained(b);
    lemma_mul_by_cases(a, b);
    lemma_mul_by_cases(a2, b2);
    // every corner of the narrower pair is a product of points of the wider pair
    lemma_mul_sound(a2, b2, a.lo.value(), b.lo.value());
    lemma_mul_sound(a2, b2, a.lo.value(), b.hi.value());
    lemma_mul_sound(a2, b2, a.hi.value(), b.lo.value());
    lemma_mul_sound(a2, b2, a.hi.value(), b.hi.value());
    crate::fraction::lemma_value_mul(a.lo, b.lo);
    crate::fraction::lemma_value_mul(a.lo, b.hi);
    crate::fraction::lemma_value_mul(a.hi, b.lo);
    crate::fraction::lemma_value_mul(a.hi, b.hi);
    let ac = a.lo.mul(b.lo);
    let ad = a.lo.mul(b.hi);
    let bc = a.hi.mul(b.lo);
    let bd = a.hi.mul(b.hi);
    let lo = min4(ac, ad, bc, bd);
    let hi = max4(ac, ad, bc, bd);
    assert(lo == ac || lo == ad || lo == bc || lo == bd);
    assert(hi == ac || hi == ad || hi == bc || hi == bd);
}

/// A narrower interval multiplied by a number is narrower.
pub proof fn lemma_scale_narrow(a: Interval, a2: Interval, c: Fraction)
    requires
        a.wf(),
        a2.wf(),
        c.wf(),
        a.within(a2),
    ensures
        a.scale(c).wf(),
        a2.scale(c).wf(),
        a.scale(c).within(a2.scale(c)),
{
    lemma_ends_contained(a);
    lemma_scale_sound(a, c, a.lo.value());
    lemma_scale_sound(a2, c, a.lo.value());
    lemma_scale_sound(a2, c, a.hi.value());
    crate::fraction::lemma_value_mul(a.lo, c);
    crate::fraction::lemma_value_mul(a.hi, c);
}

/// The reciprocal of a narrower interval is narrower.
pub proof fn lemma_recip_narrow(a: Interval, a2: Interval)
    requires
        a.wf(),
        a2.wf(),
        a.within(a2),
        a2.excludes_zero(),
    ensures
        a.excludes_zero(),
        a.recip().wf(),
        a2.recip().wf(),
        a.recip().within(a2.recip()),
{
    lemma_ends_contained(a);
    lemma_sign_of_value(a.lo);
    lemma_sign_of_value(a.hi);
    lemma_sign_of_value(a2.lo);
    lemma_sign_of_value(a2.hi);
    lemma_recip_sound(a, a.lo.value());
    lemma_recip_sound(a2, a.lo.value());
    lemma_recip_sound(a2, a.hi.value());
    crate::fraction::lemma_value_inv(a.lo);
    crate::fraction::lemma_value_inv(a.hi);
}

/// The whole power of a narrower interval is narrower.
pub proof fn lemma_integer_pow_narrow(a: Interval, a2: Interval, p: nat)
    requires
        a.wf(),
        a2.wf(),
        a.within(a2),
        p >= 1,
    ensures
        integer_pow_interval(a, p).wf(),
        integer_pow_interval(a2, p).wf(),
        integer_pow_interval(a, p).within(integer_pow_interval(a2, p)),
{
    lemma_ends_contained(a);
    lemma_integer_pow_interval(a, p);
    lemma_integer_pow_interval(a2, p);
    crate::enclosure::lemma_integer_pow_sound(a2, p, a.lo.value());
    crate::enclosure::lemma_integer_pow_sound(a2, p, a.hi.value());
    lemma_value_pow(a.lo, p);
    lemma_value_pow(a.hi, p);
    lemma_sign_of_value(a.lo);
    lemma_sign_of_value(a.hi);
    lemma_value_order(a.lo.pow(p), a.hi.pow(p));
    lemma_value_order(a.hi.pow(p), a.lo.pow(p));
    lemma_from_int_value(0);
    if !(p % 2 == 1 || a.lo.num >= 0) && a.hi.num > 0 {
        // the interval lies around zero, whose power is zero
        crate::enclosure::lemma_integer_pow_sound(a2, p, 0real);
        assert(real_pow(0real, p) == 0real) by {
            assert(0real * real_pow(0real, (p - 1) as nat) == 0real) by (nonlinear_arith);
        }
    }
}

/// The power of an interval that is defined is an interval, which excludes
/// zero where the exponent is negative.
pub proof fn lemma_interval_pow_wf(base: Interval, e: Fraction, iter: nat, d: int)
    requires
        base.wf(),
        pow_defined(base, e),
        d > 0,
    ensures
        interval_pow(base, e, iter, d).wf(),
{
    if e != Fraction::from_int(1) {
        let p = abs(e.num);
        let q = e.den as nat;
        lemma_integer_pow_interval(base, p);
        let powered = integer_pow_interval(base, p);
        lemma_value_order(powered.lo, powered.hi);
        lemma_sign_of_value(powered.lo);
        lemma_sign_of_value(powered.hi);
        lemma_root_of_bounds(powered.lo, q, iter, d);
        lemma_root_of_bounds(powered.hi, q, iter, d);
        let rooted = root_interval(powered, q, iter, d);
        if e.num < 0 {
            // every end of the roots is on the side of zero that the powers are on
            let low = root_of(powered.lo, q, iter, d);
            let high = root_of(powered.hi, q, iter, d);
            lemma_value_order(low.lo, low.hi);
            lemma_value_order(high.lo, high.hi);
            lemma_sign_of_value(low.lo);
            lemma_sign_of_value(low.hi);
            lemma_sign_of_value(high.lo);
            lemma_sign_of_value(high.hi);
            lemma_value_order(rooted.lo, rooted.hi);
            lemma_recip_sound(rooted, rooted.lo.value());
        }
    }
}

/// The power of a narrower interval with a whole exponent is narrower, and
/// defined where the power of the wider interval is.
pub proof fn lemma_whole_pow_narrow(
    a: Interval,
    a2: Interval,
    e: Fraction,
    iter: nat,
    iter2: nat,
    d: int,
    d2: int,
)
    requires
        a.wf(),
        a2.wf(),
        a.within(a2),
        pow_defined(a2, e),
        e.den == 1,
        d > 0,
        d2 > 0,
    ensures
        pow_defined(a, e),
        interval_pow(a, e, iter, d).wf(),
        interval_pow(a2, e, iter2, d2).wf(),
        interval_pow(a, e, iter, d).within(interval_pow(a2, e, iter2, d2)),
{
    lemma_value_order(a.lo, a.hi);
    lemma_sign_of_value(a.lo);
    lemma_sign_of_value(a.hi);
    lemma_sign_of_value(a2.lo);
    lemma_sign_of_value(a2.hi);
    lemma_interval_pow_wf(a, e, iter, d);
    lemma_interval_pow_wf(a2, e, iter2, d2);
    if e != Fraction::from_int(1) {
        let p = abs(e.num);
        lemma_integer_pow_narrow(a, a2, p);
        let x = integer_pow_interval(a, p);
        let x2 = integer_pow_interval(a2, p);
        // the root of the first degree is the number itself
        assert(root_interval(x, 1, iter, d) == x);
        assert(root_interval(x2, 1, iter2, d2) == x2);
        if e.num < 0 {
            lemma_integer_pow_interval(a2, p);
            lemma_recip_narrow(x, x2);
        }
    }
}

/// Every exponent in the expression is a whole number.
pub open spec fn whole_exponents(e: Expr) -> bool
    decreases e, 0int,
{
    match e {
        Expr::Rat(_) => true,
        Expr::Const(_) => true,
        Expr::Sum(_, terms) => terms_whole(terms, false),
        Expr::Prod(_, terms) => terms_whole(terms, true),
        Expr::Pow(base, x) => x.den == 1 && whole_exponents(*base),
    }
}

/// Every exponent in the terms is a whole number, and so is every weight
/// where the weights are exponents.
pub open spec fn terms_whole(terms: Seq<(Fraction, Expr)>, weights_too: bool) -> bool
    decreases terms, 1int,
{
    forall|i: int|
        0 <= i < terms.len() ==> whole_exponents((#[trigger] terms[i]).1) && (weights_too
            ==> terms[i].0.den == 1)
}

/// Monotone refinement: with more effort and a denominator that is a
/// multiple of the one before, as in the steps of a comparison, the
/// interval of a canonical expression whose exponents are whole numbers
/// has an interval again, and that lies within the one before.
pub proof fn lemma_eval_narrows(e: Expr, i: nat, j: nat, cap: nat, m: nat)
    requires
        e.canonical(),
        whole_exponents(e),
        i <= j,
        m >= 1,
        params_valid(j, cap * m),
        eval(e, i, cap) is Some,
    ensures
        eval(e, j, cap * m) is Some,
        eval(e, i, cap)->0.wf(),
        eval(e, j, cap * m)->0.wf(),
        eval(e, j, cap * m)->0.within(eval(e, i, cap)->0),
    decreases e, 0int,
{
    lemma_canonical_parts(e);
    let cap2 = cap * m;
    assert(cap2 as int == (cap as int) * (m as int)) by (nonlinear_arith)
        requires
            cap2 == cap * m,
    ;
    match e {
        Expr::Rat(q) => {
            lemma_value_order(q, q);
        },
        Expr::Const(c) => {
            lemma_constant_narrows(c, i, j, cap, m);
        },
        Expr::Sum(r, terms) => {
            lemma_value_order(r, r);
            let start = Interval::point(r);
            lemma_eval_sum_narrows(terms, 0, start, start, i, j, cap, m);
            let x = eval_sum(terms, 0, start, i, cap)->0;
            let x2 = eval_sum(terms, 0, start, j, cap2)->0;
            lemma_coarsen_narrow(x2, x, cap as int, m as int);
        },
        Expr::Prod(r, terms) => {
            lemma_value_order(r, r);
            let start = Interval::point(r);
            lemma_eval_prod_narrows(terms, 0, start, start, i, j, cap, m);
            let x = eval_prod(terms, 0, start, i, cap)->0;
            let x2 = eval_prod(terms, 0, start, j, cap2)->0;
            lemma_coarsen_narrow(x2, x, cap as int, m as int);
        },
        Expr::Pow(base, x) => {
            lemma_eval_narrows(*base, i, j, cap, m);
            let b = eval(*base, i, cap)->0;
            let b2 = eval(*base, j, cap2)->0;
            lemma_whole_pow_narrow(b2, b, x, j, i, cap2 as int, cap as int);
            let y = interval_pow(b, x, i, cap as int);
            let y2 = interval_pow(b2, x, j, cap2 as int);
            lemma_coarsen_narrow(y2, y, cap as int, m as int);
        },
    }
}

/// Monotone refinement for the terms of a sum.
pub proof fn lemma_eval_sum_narrows(
    terms: Seq<(Fraction, Expr)>,
    k: nat,
    acc: Interval,
    acc2: Interval,
    i: nat,
    j: nat,
    cap: nat,
    m: nat,
)
    requires
        terms_comparable(terms),
        terms_whole(terms, false),
        i <= j,
        m >= 1,
        params_valid(i, cap),
        params_valid(j, cap * m),
        acc.wf(),
        acc2.wf(),
        acc2.within(acc),
        eval_sum(terms, k, acc, i, cap) is Some,
    ensures
        eval_sum(terms, k, acc2, j, cap * m) is Some,
        eval_sum(terms, k, acc, i, cap)->0.wf(),
        eval_sum(terms, k, acc2, j, cap * m)->0.wf(),
        eval_sum(terms, k, acc2, j, cap * m)->0.within(eval_sum(terms, k, acc, i, cap)->0),
    decreases terms, terms.len() - k,
{
    if k < terms.len() {
        let t = terms[k as int].1;
        let c = terms[k as int].0;
        lemma_eval_narrows(t, i, j, cap, m);
        let v = eval(t, i, cap)->0;
        let v2 = eval(t, j, cap * m)->0;
        lemma_scale_narrow(v2, v, c);
        lemma_add_narrow(acc2, acc, v2.scale(c), v.scale(c));
        lemma_eval_sum_narrows(
            terms,
            k + 1,
            acc.add(v.scale(c)),
            acc2.add(v2.scale(c)),
            i,
            j,
            cap,
            m,
        );
    }
}

/// Monotone refinement for the factors of a product.
pub proof fn lemma_eval_prod_narrows(
    terms: Seq<(Fraction, Expr)>,
    k: nat,
    acc: Interval,
    acc2: Interval,
    i: nat,
    j: nat,
    cap: nat,
    m: nat,
)
    requires
        terms_comparable(terms),
        terms_whole(terms, true),
        i <= j,
        m >= 1,
        params_valid(i, cap),
        params_valid(j, cap * m),
        acc.wf(),
        acc2.wf(),
        acc2.within(acc),
        eval_prod(terms, k, acc, i, cap) is Some,
    ensures
        eval_prod(terms, k, acc2, j, cap * m) is Some,
        eval_prod(terms, k, acc, i, cap)->0.wf(),
        eval_prod(terms, k, acc2, j, cap * m)->0.wf(),
        eval_prod(terms, k, acc2, j, cap * m)->0.within(eval_prod(terms, k, acc, i, cap)->0),
    decreases terms, terms.len() - k,
{
    if k < terms.len() {
        let t = terms[k as int].1;
        let x = terms[k as int].0;
        lemma_eval_narrows(t, i, j, cap, m);
        let v = eval(t, i, cap)->0;
        let v2 = eval(t, j, cap * m)->0;
        let cap2 = cap * m;
        lemma_whole_pow_narrow(v2, v, x, j, i, cap2 as int, cap as int);
        let y = interval_pow(v, x, i, cap as int);
        let y2 = interval_pow(v2, x, j, cap2 as int);
        lemma_mul_narrow(acc2, acc, y2, y);
        lemma_eval_prod_narrows(terms, k + 1, acc.mul(y), acc2.mul(y2), i, j, cap, m);
    }
}

} // verus!
