//! Why the intervals can be relied on: the enclosures of roots and powers
//! contain the real numbers they are meant to contain.

use crate::byzantine::TransitiveConsts;
use crate::expr::{lemma_canonical_parts, terms_comparable, Expr};
use crate::fraction::{
    lemma_real_pow_even, lemma_real_pow_monotone, lemma_real_pow_neg, lemma_real_pow_odd_monotone,
    lemma_real_pow_sign, lemma_value_add, lemma_value_div, lemma_value_mul, lemma_value_neg,
    lemma_value_order, lemma_value_pow, lemma_value_rounding, lemma_value_sub, real_pow, Fraction,
};
use crate::neoprene::{eval, eval_const, eval_pow, eval_prod, eval_sum, params_valid};
use crate::neoprene_comp::{compare, compare_from, separation};
use crate::neoprene_taylor::{
    euler_interval, int_root, integer_pow_interval, interval_pow, is_int_root,
    lemma_integer_pow_interval, lemma_pow_base_monotone, midpoint, newton_candidate,
    newton_iterate, newton_step_of, pi_interval, pow_defined, root_interval, root_of, root_start,
    slope, tighten,
};
use crate::rational_range::{
    lemma_add_sound, lemma_coarsen_sound, lemma_mul_sound, lemma_recip_sound, lemma_scale_sound,
    lemma_sign_of_value, Interval,
};
use vstd::arithmetic::power::{lemma1_pow, lemma_pow_positive, pow};
use vstd::math::abs;
use vstd::prelude::*;

verus! {

/// The difference of two powers is at least the difference of the bases
/// times the slope at any point below both.
pub proof fn lemma_pow_diff_lower(a: real, b: real, lo: real, q: nat)
    requires
        0real <= lo <= b <= a,
        q >= 1,
    ensures
        real_pow(a, q) - real_pow(b, q) >= (a - b) * ((q as real) * real_pow(lo, (q - 1) as nat)),
    decreases q,
{
    if q == 1 {
        assert(real_pow(a, 1) == a) by {
            reveal_with_fuel(real_pow, 2);
            assert(a * 1real == a) by (nonlinear_arith);
        }
        assert(real_pow(b, 1) == b) by {
            reveal_with_fuel(real_pow, 2);
            assert(b * 1real == b) by (nonlinear_arith);
        }
        assert((a - b) * (1real * 1real) == a - b) by (nonlinear_arith);
    } else {
        let j = (q - 1) as nat;
        let i = (q - 2) as nat;
        lemma_pow_diff_lower(a, b, lo, j);
        lemma_real_pow_monotone(lo, b, j);
        lemma_real_pow_sign(lo, j);
        lemma_real_pow_sign(lo, i);
        let pa = real_pow(a, j);
        let pb = real_pow(b, j);
        let pl = real_pow(lo, j);
        let pl2 = real_pow(lo, i);
        let n = j as real;
        assert(q as real == n + 1real);
        assert(pl == lo * pl2);
        // a * pa - b * pb == a * (pa - pb) + (a - b) * pb
        assert(a * pa - b * pb >= (a - b) * ((n + 1real) * pl)) by (nonlinear_arith)
            requires
                0real <= lo <= b <= a,
                pa - pb >= (a - b) * (n * pl2),
                pl == lo * pl2,
                pb >= pl,
                pl >= 0real,
                pl2 >= 0real,
                n >= 0real,
        {
            assert(a * pa - b * pb == a * (pa - pb) + (a - b) * pb);
            assert((a - b) * (n * pl2) >= 0real);
            assert(a * (pa - pb) >= lo * ((a - b) * (n * pl2)));
            assert(lo * ((a - b) * (n * pl2)) == (a - b) * (n * pl));
            assert((a - b) * pb >= (a - b) * pl);
            assert((a - b) * (n * pl) + (a - b) * pl == (a - b) * ((n + 1real) * pl));
        }
    }
}

/// The difference of two powers is at most the difference of the bases
/// times the slope at any point above both.
pub proof fn lemma_pow_diff_upper(a: real, b: real, hi: real, q: nat)
    requires
        0real <= b <= a <= hi,
        q >= 1,
    ensures
        real_pow(a, q) - real_pow(b, q) <= (a - b) * ((q as real) * real_pow(hi, (q - 1) as nat)),
    decreases q,
{
    if q == 1 {
        assert(real_pow(a, 1) == a) by {
            reveal_with_fuel(real_pow, 2);
            assert(a * 1real == a) by (nonlinear_arith);
        }
        assert(real_pow(b, 1) == b) by {
            reveal_with_fuel(real_pow, 2);
            assert(b * 1real == b) by (nonlinear_arith);
        }
        assert((a - b) * (1real * 1real) == a - b) by (nonlinear_arith);
    } else {
        let j = (q - 1) as nat;
        let i = (q - 2) as nat;
        lemma_pow_diff_upper(a, b, hi, j);
        lemma_real_pow_monotone(b, hi, j);
        lemma_real_pow_monotone(b, a, j);
        lemma_real_pow_sign(b, j);
        lemma_real_pow_sign(hi, j);
        lemma_real_pow_sign(hi, i);
        let pa = real_pow(a, j);
        let pb = real_pow(b, j);
        let ph = real_pow(hi, j);
        let ph2 = real_pow(hi, i);
        let n = j as real;
        assert(q as real == n + 1real);
        assert(ph == hi * ph2);
        assert(a * pa - b * pb <= (a - b) * ((n + 1real) * ph)) by (nonlinear_arith)
            requires
                0real <= b <= a <= hi,
                pa - pb <= (a - b) * (n * ph2),
                pa - pb >= 0real,
                ph == hi * ph2,
                pb <= ph,
                pb >= 0real,
                ph2 >= 0real,
                n >= 0real,
        {
            assert(a * pa - b * pb == a * (pa - pb) + (a - b) * pb);
            assert(a * (pa - pb) <= hi * (pa - pb));
            assert(hi * (pa - pb) <= hi * ((a - b) * (n * ph2)));
            assert(hi * ((a - b) * (n * ph2)) == (a - b) * (n * ph));
            assert((a - b) * pb <= (a - b) * ph);
            assert((a - b) * (n * ph) + (a - b) * ph == (a - b) * ((n + 1real) * ph));
        }
    }
}

/// The bracket `g` holds the positive `q`-th root of `v`: its ends are
/// positive, and `v` lies between their `q`-th powers.
pub open spec fn brackets_root(g: Interval, v: real, q: nat) -> bool {
    &&& g.wf()
    &&& 0real < g.lo.value() <= g.hi.value()
    &&& real_pow(g.lo.value(), q) <= v <= real_pow(g.hi.value(), q)
}

/// The value of the slope `q * x ^ (q - 1)`.
pub proof fn lemma_slope_value(x: Fraction, q: nat)
    requires
        x.wf(),
        q >= 1,
    ensures
        slope(x, q).wf(),
        slope(x, q).value() == (q as real) * real_pow(x.value(), (q - 1) as nat),
{
    let k = (q - 1) as nat;
    lemma_value_pow(x, k);
    lemma_value_mul(x.pow(k), Fraction::from_int(q as int));
    let a = q as real;
    assert(a / 1real == a) by (nonlinear_arith);
    assert(Fraction::from_int(q as int).value() == a);
    let p = real_pow(x.value(), k);
    assert(p * a == a * p) by (nonlinear_arith);
}

/// One step of Newton's method keeps the root in the bracket.
pub proof fn lemma_newton_step_sound(g: Interval, v: Fraction, q: nat, d: int)
    requires
        brackets_root(g, v.value(), q),
        v.wf(),
        q >= 1,
        d > 0,
    ensures
        brackets_root(newton_step_of(g, v, q, d), v.value(), q),
{
    let lo = g.lo.value();
    let hi = g.hi.value();
    let big_v = v.value();
    let half = Fraction { num: 1, den: 2 };
    let m_frac = midpoint(g);
    lemma_value_add(g.lo, g.hi);
    lemma_value_mul(g.lo.add(g.hi), half);
    assert(half.value() * 2real == 1real) by (nonlinear_arith)
        requires
            half.value() == (1 as real) / (2 as real),
    ;
    let m = m_frac.value();
    assert(lo <= m <= hi) by (nonlinear_arith)
        requires
            m == (lo + hi) * half.value(),
            half.value() * 2real == 1real,
            lo <= hi,
    ;
    lemma_value_pow(m_frac, q);
    lemma_value_sub(m_frac.pow(q), v);
    let f_frac = m_frac.pow(q).sub(v);
    let f = f_frac.value();
    let pm = real_pow(m, q);
    assert(f == pm - big_v);
    lemma_sign_of_value(g.lo);
    lemma_sign_of_value(g.hi);
    lemma_slope_value(g.lo, q);
    lemma_slope_value(g.hi, q);
    let k = (q - 1) as nat;
    let dl = slope(g.lo, q).value();
    let dh = slope(g.hi, q).value();
    lemma_real_pow_sign(lo, k);
    lemma_real_pow_sign(hi, k);
    lemma_real_pow_monotone(lo, hi, k);
    let n = q as real;
    assert(0real < dl <= dh) by (nonlinear_arith)
        requires
            dl == n * real_pow(lo, k),
            dh == n * real_pow(hi, k),
            0real < real_pow(lo, k) <= real_pow(hi, k),
            n >= 1real,
    ;
    lemma_sign_of_value(slope(g.lo, q));
    lemma_sign_of_value(slope(g.hi, q));
    lemma_value_div(f_frac, slope(g.lo, q));
    lemma_value_div(f_frac, slope(g.hi, q));
    let a_frac = f_frac.div(slope(g.lo, q));
    let b_frac = f_frac.div(slope(g.hi, q));
    let a = a_frac.value();
    let b = b_frac.value();
    assert(a * dl == f && b * dh == f) by (nonlinear_arith)
        requires
            a == f / dl,
            b == f / dh,
            dl > 0real,
            dh > 0real,
    ;
    lemma_value_order(a_frac, b_frac);
    lemma_value_order(b_frac, a_frac);
    let top = a_frac.max(b_frac);
    let bottom = a_frac.min(b_frac);
    lemma_value_sub(m_frac, top);
    lemma_value_sub(m_frac, bottom);
    let n_lo = m - top.value();
    let n_hi = m - bottom.value();
    let cand = newton_candidate(g, v, q);
    assert(cand.lo.value() == n_lo && cand.hi.value() == n_hi);
    lemma_value_rounding(cand.lo, d);
    lemma_value_rounding(cand.hi, d);
    let c = cand.coarsen(d);
    let x = c.lo.value();
    let z = c.hi.value();
    assert(x <= n_lo && n_hi <= z);
    lemma_value_order(g.lo, c.lo);
    lemma_value_order(c.lo, g.hi);
    lemma_value_order(g.lo, c.hi);
    lemma_value_order(c.hi, g.hi);
    let r = tighten(g, c);
    // the lower end
    if g.lo.le(c.lo) && c.lo.le(g.hi) {
        // lo <= x <= hi and x <= n_lo: show x ^ q <= v
        if x <= m {
            lemma_real_pow_monotone(x, m, q);
            if f >= 0real {
                lemma_pow_diff_lower(m, x, lo, q);
                // m - x >= m - n_lo == a (the larger quotient), and a * dl == f
                assert(top.value() >= a);
                assert((m - x) * dl >= f) by (nonlinear_arith)
                    requires
                        m - x >= a,
                        a * dl == f,
                        dl > 0real,
                ;
            }
        } else {
            lemma_pow_diff_upper(x, m, hi, q);
            assert(top.value() >= b);
            assert((x - m) * dh <= -f) by (nonlinear_arith)
                requires
                    x - m <= -b,
                    b * dh == f,
                    dh > 0real,
            ;
        }
        assert(real_pow(x, q) <= big_v);
    }
    // the upper end
    if g.lo.le(c.hi) && c.hi.le(g.hi) {
        if z >= m {
            lemma_real_pow_monotone(m, z, q);
            if f < 0real {
                lemma_pow_diff_lower(z, m, lo, q);
                assert(bottom.value() <= a);
                assert((z - m) * dl >= -f) by (nonlinear_arith)
                    requires
                        z - m >= -a,
                        a * dl == f,
                        dl > 0real,
                ;
            }
        } else {
            lemma_pow_diff_upper(m, z, hi, q);
            assert(bottom.value() <= b);
            assert((m - z) * dh <= f) by (nonlinear_arith)
                requires
                    m - z <= b,
                    b * dh == f,
                    dh > 0real,
            ;
        }
        assert(real_pow(z, q) >= big_v);
    }
    lemma_value_order(r.lo, r.hi);
}

/// The whole part of a root exists.
pub proof fn lemma_int_root_exists(a: nat, n: nat)
    requires
        n >= 1,
    ensures
        is_int_root(int_root(a, n), a, n),
        a >= 1 ==> int_root(a, n) >= 1,
    decreases a,
{
    lemma1_pow(n);
    if a == 0 {
        vstd::arithmetic::power::lemma0_pow(n);
        assert(is_int_root(0, 0, n));
    } else {
        lemma_int_root_exists((a - 1) as nat, n);
        let r = int_root((a - 1) as nat, n);
        if a < pow(r as int + 1, n) {
            assert(is_int_root(r, a, n));
        } else {
            lemma_pow_base_monotone(r as int + 1, r as int + 2, n);
            assert(is_int_root(r + 1, a, n));
        }
    }
    let r = int_root(a, n);
    if a >= 1 && r == 0 {
        assert(false);
    }
}

/// The coarse enclosure from the whole parts of the roots of numerator and
/// denominator holds the root.
pub proof fn lemma_root_start_brackets(v: Fraction, q: nat)
    requires
        v.wf(),
        v.num > 0,
        q >= 1,
    ensures
        brackets_root(root_start(v, q), v.value(), q),
        root_start(v, q).lo.num > 0,
{
    let num = abs(v.num);
    let den = abs(v.den);
    lemma_int_root_exists(num, q);
    lemma_int_root_exists(den, q);
    let nr = int_root(num, q) as int;
    let dr = int_root(den, q) as int;
    let g = root_start(v, q);
    assert(nr * dr <= (nr + 1) * (dr + 1)) by (nonlinear_arith)
        requires
            nr >= 0,
            dr >= 0,
    ;
    lemma_value_order(g.lo, g.hi);
    lemma_sign_of_value(g.lo);
    lemma_value_pow(g.lo, q);
    lemma_value_pow(g.hi, q);
    lemma_value_order(g.lo.pow(q), v);
    lemma_value_order(v, g.hi.pow(q));
    lemma_pow_positive(dr + 1, q);
    lemma_pow_positive(dr, q);
    lemma_pow_base_monotone(0, nr, q);
    let a = pow(nr, q);
    let b = pow(dr + 1, q);
    let c = pow(nr + 1, q);
    let e = pow(dr, q);
    assert(a * v.den <= v.num * b) by (nonlinear_arith)
        requires
            a <= v.num,
            v.den < b,
            a >= 0,
            v.den > 0,
            v.num > 0,
    ;
    assert(v.num * e <= c * v.den) by (nonlinear_arith)
        requires
            v.num < c,
            e <= v.den,
            e > 0,
            v.num > 0,
    ;
}

/// Newton's method keeps the root in the bracket through all its steps.
pub proof fn lemma_newton_iterate_sound(g: Interval, v: Fraction, q: nat, d: int, k: nat)
    requires
        brackets_root(g, v.value(), q),
        v.wf(),
        q >= 1,
        d > 0,
    ensures
        brackets_root(newton_iterate(g, v, q, d, k), v.value(), q),
    decreases k,
{
    if k > 0 {
        lemma_newton_iterate_sound(g, v, q, d, (k - 1) as nat);
        lemma_newton_step_sound(newton_iterate(g, v, q, d, (k - 1) as nat), v, q, d);
    }
}

/// The enclosure of a root lies around the root: the number lies between
/// the `q`-th powers of its ends, and its lower end is not negative where
/// the number is not.
pub proof fn lemma_root_of_bounds(v: Fraction, q: nat, iter: nat, d: int)
    requires
        v.wf(),
        q >= 1,
        d > 0,
        v.num >= 0 || q % 2 == 1,
    ensures
        root_of(v, q, iter, d).wf(),
        real_pow(root_of(v, q, iter, d).lo.value(), q) <= v.value(),
        v.value() <= real_pow(root_of(v, q, iter, d).hi.value(), q),
        v.num >= 0 ==> root_of(v, q, iter, d).lo.value() >= 0real,
        v.num > 0 ==> root_of(v, q, iter, d).lo.num > 0,
        v.num < 0 ==> root_of(v, q, iter, d).hi.num < 0,
{
    let r = root_of(v, q, iter, d);
    lemma_sign_of_value(v);
    if q == 1 {
        lemma_value_order(v, v);
        let x = v.value();
        assert(real_pow(x, 1) == x) by {
            reveal_with_fuel(real_pow, 2);
            assert(x * 1real == x) by (nonlinear_arith);
        }
    } else if v.num == 0 {
        let zero = Fraction::from_int(0);
        lemma_value_order(zero, zero);
        crate::fraction::lemma_from_int_value(0);
        assert(real_pow(0real, q) == 0real) by {
            assert(0real * real_pow(0real, (q - 1) as nat) == 0real) by (nonlinear_arith);
        }
    } else if v.num > 0 {
        lemma_root_start_brackets(v, q);
        lemma_newton_iterate_sound(root_start(v, q), v, q, d, iter);
        lemma_sign_of_value(r.lo);
    } else {
        let w = v.neg();
        lemma_value_neg(v);
        lemma_root_start_brackets(w, q);
        lemma_newton_iterate_sound(root_start(w, q), w, q, d, iter);
        let p = newton_iterate(root_start(w, q), w, q, d, iter);
        lemma_value_neg(p.lo);
        lemma_value_neg(p.hi);
        lemma_real_pow_neg(p.lo.value(), q);
        lemma_real_pow_neg(p.hi.value(), q);
        lemma_value_order(r.lo, r.hi);
        lemma_sign_of_value(p.lo);
    }
}

/// A number whose power is below the power of another is below it, among
/// nonnegative numbers and, for odd powers, among all.
pub proof fn lemma_real_pow_order(x: real, y: real, q: nat)
    requires
        q >= 1,
        real_pow(x, q) <= real_pow(y, q),
        q % 2 == 1 || (x >= 0real && y >= 0real),
    ensures
        x <= y,
{
    if y < x {
        if y >= 0real {
            lemma_real_pow_monotone(y, x, q);
        } else if x <= 0real {
            // both are negative or zero, the power is odd
            lemma_real_pow_neg(x, q);
            lemma_real_pow_neg(y, q);
            lemma_real_pow_monotone(-x, -y, q);
        } else {
            lemma_real_pow_sign(x, q);
            lemma_real_pow_odd_monotone(y, y, q);
        }
    }
}

/// The enclosure of the roots of an interval contains every root of every
/// point of the interval: every `y` with `y ^ q == x` for an `x` in the
/// interval, `y` not negative where the degree is even.
pub proof fn lemma_root_interval_sound(
    p: Interval,
    q: nat,
    iter: nat,
    d: int,
    x: real,
    y: real,
)
    requires
        p.wf(),
        q >= 1,
        d > 0,
        p.lo.num >= 0 || q % 2 == 1,
        p.contains(x),
        real_pow(y, q) == x,
        q % 2 == 0 ==> y >= 0real,
    ensures
        root_interval(p, q, iter, d).contains(y),
        root_interval(p, q, iter, d).wf(),
        root_interval(p, q, iter, d) == (Interval {
            lo: root_of(p.lo, q, iter, d).lo,
            hi: root_of(p.hi, q, iter, d).hi,
        }),
{
    lemma_value_order(p.lo, p.hi);
    lemma_sign_of_value(p.lo);
    lemma_sign_of_value(p.hi);
    lemma_root_of_bounds(p.lo, q, iter, d);
    lemma_root_of_bounds(p.hi, q, iter, d);
    let lo = root_of(p.lo, q, iter, d).lo;
    let hi = root_of(p.hi, q, iter, d).hi;
    lemma_value_order(root_of(p.hi, q, iter, d).lo, hi);
    lemma_real_pow_order(lo.value(), y, q);
    if q % 2 == 0 {
        // the upper end is not negative, as it is above a nonnegative lower end
        assert(hi.value() >= 0real);
    }
    lemma_real_pow_order(y, hi.value(), q);
    lemma_value_order(lo, hi);
}

/// The whole powers of the points of an interval lie in the interval of its
/// powers.
pub proof fn lemma_integer_pow_sound(base: Interval, p: nat, x: real)
    requires
        base.wf(),
        p >= 1,
        base.contains(x),
    ensures
        integer_pow_interval(base, p).contains(real_pow(x, p)),
        integer_pow_interval(base, p).wf(),
{
    lemma_integer_pow_interval(base, p);
    let a = base.lo.value();
    let b = base.hi.value();
    lemma_value_pow(base.lo, p);
    lemma_value_pow(base.hi, p);
    lemma_sign_of_value(base.lo);
    lemma_sign_of_value(base.hi);
    lemma_value_order(base.lo.pow(p), base.hi.pow(p));
    lemma_value_order(base.hi.pow(p), base.lo.pow(p));
    crate::fraction::lemma_from_int_value(0);
    if a >= 0real {
        lemma_real_pow_monotone(a, x, p);
        lemma_real_pow_monotone(x, b, p);
    } else if p % 2 == 1 {
        lemma_real_pow_odd_monotone(a, x, p);
        lemma_real_pow_odd_monotone(x, b, p);
    } else if b <= 0real {
        lemma_real_pow_even(a, x, p);
        lemma_real_pow_even(x, b, p);
    } else if x <= 0real {
        lemma_real_pow_even(a, x, p);
    } else {
        lemma_real_pow_monotone(x, b, p);
        lemma_real_pow_sign(x, p);
    }
}

/// The power of an interval contains the powers of its points: for `x` in
/// `base` and the exponent `e = +-p / q`, every real `w` with
/// `w ^ q == x ^ p`, not negative where `q` is even, lies in the power of
/// the interval for a positive `e`, and its reciprocal does for a negative
/// `e`.
pub proof fn lemma_interval_pow_sound(
    base: Interval,
    e: Fraction,
    iter: nat,
    d: int,
    x: real,
    w: real,
)
    requires
        base.wf(),
        pow_defined(base, e),
        d > 0,
        base.contains(x),
        real_pow(w, e.den as nat) == real_pow(x, abs(e.num)),
        e.den % 2 == 0 ==> w >= 0real,
    ensures
        interval_pow(base, e, iter, d).wf(),
        e.num > 0 ==> interval_pow(base, e, iter, d).contains(w),
        e.num < 0 ==> w != 0real && interval_pow(base, e, iter, d).contains(1real / w),
{
    let p = abs(e.num);
    let q = e.den as nat;
    if e == Fraction::from_int(1) {
        assert(real_pow(w, 1) == w && real_pow(x, 1) == x) by {
            reveal_with_fuel(real_pow, 2);
            assert(w * 1real == w && x * 1real == x) by (nonlinear_arith);
        }
    } else {
        lemma_integer_pow_interval(base, p);
        lemma_integer_pow_sound(base, p, x);
        let powered = integer_pow_interval(base, p);
        lemma_root_interval_sound(powered, q, iter, d, real_pow(x, p), w);
        let rooted = root_interval(powered, q, iter, d);
        if e.num < 0 {
            // the root of a positive number is positive, of a negative one negative
            lemma_value_order(powered.lo, powered.hi);
            lemma_sign_of_value(powered.lo);
            lemma_sign_of_value(powered.hi);
            lemma_root_of_bounds(powered.lo, q, iter, d);
            lemma_root_of_bounds(powered.hi, q, iter, d);
            lemma_recip_sound(rooted, w);
        }
    }
}

/// `y` is a value of `x ^ e` for the exponent `e = +-p / q`: for some real
/// `w` with `w ^ q == x ^ p`, not negative where `q` is even, `y` is `w`
/// for a positive `e` and `1 / w` for a negative `e`.
pub open spec fn is_power(x: real, e: Fraction, y: real) -> bool {
    exists|w: real| #[trigger] power_witness(x, e, y, w)
}

/// `w` shows that `y` is a value of `x ^ e`.
pub open spec fn power_witness(x: real, e: Fraction, y: real, w: real) -> bool {
    &&& real_pow(w, e.den as nat) == real_pow(x, abs(e.num))
    &&& e.den % 2 == 0 ==> w >= 0real
    &&& if e.num < 0 {
        w != 0real && y == 1real / w
    } else {
        y == w
    }
}

/// Always true; marks the real number that an existence claim is about.
pub open spec fn chosen(x: real) -> bool {
    true
}

/// The real number `v` is a value of the expression `e` when the constants
/// pi and e are taken to be the real numbers `pi` and `eu`.
pub open spec fn denotes(e: Expr, pi: real, eu: real, v: real) -> bool
    decreases e, 0int,
{
    match e {
        Expr::Rat(q) => v == q.value(),
        Expr::Const(c) => v == (match c {
            TransitiveConsts::Pi => pi,
            TransitiveConsts::Euler => eu,
        }),
        Expr::Sum(r, terms) => sum_denotes(terms, 0, r.value(), pi, eu, v),
        Expr::Prod(r, terms) => prod_denotes(terms, 0, r.value(), pi, eu, v),
        Expr::Pow(base, x) => exists|b: real| #[trigger]
            chosen(b) && denotes(*base, pi, eu, b) && is_power(b, x, v),
    }
}

/// `v` is `acc` plus values of the terms from position `i` on, each
/// multiplied by its coefficient.
pub open spec fn sum_denotes(
    terms: Seq<(Fraction, Expr)>,
    i: nat,
    acc: real,
    pi: real,
    eu: real,
    v: real,
) -> bool
    decreases terms, terms.len() - i,
{
    if i >= terms.len() {
        v == acc
    } else {
        exists|t: real| #[trigger]
            chosen(t) && denotes(terms[i as int].1, pi, eu, t) && sum_denotes(
                terms,
                i + 1,
                acc + t * terms[i as int].0.value(),
                pi,
                eu,
                v,
            )
    }
}

/// `v` is `acc` times values of the terms from position `i` on, each raised
/// to its exponent.
pub open spec fn prod_denotes(
    terms: Seq<(Fraction, Expr)>,
    i: nat,
    acc: real,
    pi: real,
    eu: real,
    v: real,
) -> bool
    decreases terms, terms.len() - i,
{
    if i >= terms.len() {
        v == acc
    } else {
        exists|t: real, y: real| #[trigger]
            chosen(t) && #[trigger] chosen(y) && denotes(terms[i as int].1, pi, eu, t)
                && is_power(t, terms[i as int].0, y) && prod_denotes(
                terms,
                i + 1,
                acc * y,
                pi,
                eu,
                v,
            )
    }
}

/// The enclosures of the constants for the effort `iter` and the
/// denominator `cap` contain the real numbers `pi` and `eu`.
pub open spec fn constants_enclosed(pi: real, eu: real, iter: nat, cap: nat) -> bool {
    pi_interval(iter, cap).contains(pi) && euler_interval(iter, cap).contains(eu)
}

/// A power that is defined on an interval lies, for every point of the
/// interval, in the power of the interval.
pub proof fn lemma_eval_pow_sound(
    base: Interval,
    x: Fraction,
    iter: nat,
    cap: nat,
    b: real,
    v: real,
)
    requires
        base.wf(),
        cap > 0,
        base.contains(b),
        is_power(b, x, v),
        eval_pow(Some(base), x, iter, cap) is Some,
    ensures
        eval_pow(Some(base), x, iter, cap)->0.contains(v),
        eval_pow(Some(base), x, iter, cap)->0.wf(),
{
    let w = choose|w: real| #[trigger] power_witness(b, x, v, w);
    lemma_interval_pow_sound(base, x, iter, cap as int, b, w);
}

/// Enclosure: the interval of a canonical expression contains every value
/// of the expression, for any real numbers taken for pi and e that the
/// enclosures of the two constants contain.
pub proof fn lemma_eval_sound(e: Expr, iter: nat, cap: nat, pi: real, eu: real, v: real)
    requires
        e.canonical(),
        constants_enclosed(pi, eu, iter, cap),
        denotes(e, pi, eu, v),
        eval(e, iter, cap) is Some,
    ensures
        eval(e, iter, cap)->0.contains(v),
        eval(e, iter, cap)->0.wf(),
    decreases e, 0int,
{
    lemma_canonical_parts(e);
    match e {
        Expr::Rat(q) => {
            lemma_value_order(q, q);
        },
        Expr::Const(c) => {
            lemma_constant_wf(c, iter, cap, pi, eu);
        },
        Expr::Sum(r, terms) => {
            lemma_value_order(r, r);
            lemma_eval_sum_sound(terms, 0, Interval::point(r), r.value(), iter, cap, pi, eu, v);
            let i = eval_sum(terms, 0, Interval::point(r), iter, cap)->0;
            lemma_coarsen_sound(i, cap as int, v);
        },
        Expr::Prod(r, terms) => {
            lemma_value_order(r, r);
            lemma_eval_prod_sound(terms, 0, Interval::point(r), r.value(), iter, cap, pi, eu, v);
            let i = eval_prod(terms, 0, Interval::point(r), iter, cap)->0;
            lemma_coarsen_sound(i, cap as int, v);
        },
        Expr::Pow(base, x) => {
            let b = choose|b: real| #[trigger]
                chosen(b) && denotes(*base, pi, eu, b) && is_power(b, x, v);
            lemma_eval_sound(*base, iter, cap, pi, eu, b);
            let i = eval(*base, iter, cap)->0;
            lemma_eval_pow_sound(i, x, iter, cap, b, v);
            let j = eval_pow(Some(i), x, iter, cap)->0;
            lemma_coarsen_sound(j, cap as int, v);
        },
    }
}

/// An interval that contains a number is well formed.
pub proof fn lemma_constant_wf(c: TransitiveConsts, iter: nat, cap: nat, pi: real, eu: real)
    requires
        constants_enclosed(pi, eu, iter, cap),
        cap > 0,
    ensures
        eval_const(c, iter, cap).wf(),
{
    let i = eval_const(c, iter, cap);
    // the endpoints are roundings to the positive denominator `cap`
    assert(i.lo.den == cap && i.hi.den == cap);
    lemma_value_order(i.lo, i.hi);
}

/// Enclosure for the terms of a sum.
pub proof fn lemma_eval_sum_sound(
    terms: Seq<(Fraction, Expr)>,
    i: nat,
    acc: Interval,
    a: real,
    iter: nat,
    cap: nat,
    pi: real,
    eu: real,
    v: real,
)
    requires
        terms_comparable(terms),
        params_valid(iter, cap),
        constants_enclosed(pi, eu, iter, cap),
        acc.wf(),
        acc.contains(a),
        sum_denotes(terms, i, a, pi, eu, v),
        eval_sum(terms, i, acc, iter, cap) is Some,
    ensures
        eval_sum(terms, i, acc, iter, cap)->0.contains(v),
        eval_sum(terms, i, acc, iter, cap)->0.wf(),
    decreases terms, terms.len() - i,
{
    if i < terms.len() {
        let k = i as int;
        let c = terms[k].0;
        let t = choose|t: real| #[trigger]
            chosen(t) && denotes(terms[k].1, pi, eu, t) && sum_denotes(
                terms,
                i + 1,
                a + t * c.value(),
                pi,
                eu,
                v,
            );
        lemma_eval_sound(terms[k].1, iter, cap, pi, eu, t);
        let j = eval(terms[k].1, iter, cap)->0;
        lemma_scale_sound(j, c, t);
        lemma_add_sound(acc, j.scale(c), a, t * c.value());
        lemma_eval_sum_sound(
            terms,
            i + 1,
            acc.add(j.scale(c)),
            a + t * c.value(),
            iter,
            cap,
            pi,
            eu,
            v,
        );
    }
}

/// Enclosure for the factors of a product.
pub proof fn lemma_eval_prod_sound(
    terms: Seq<(Fraction, Expr)>,
    i: nat,
    acc: Interval,
    a: real,
    iter: nat,
    cap: nat,
    pi: real,
    eu: real,
    v: real,
)
    requires
        terms_comparable(terms),
        params_valid(iter, cap),
        constants_enclosed(pi, eu, iter, cap),
        acc.wf(),
        acc.contains(a),
        prod_denotes(terms, i, a, pi, eu, v),
        eval_prod(terms, i, acc, iter, cap) is Some,
    ensures
        eval_prod(terms, i, acc, iter, cap)->0.contains(v),
        eval_prod(terms, i, acc, iter, cap)->0.wf(),
    decreases terms, terms.len() - i,
{
    if i < terms.len() {
        let k = i as int;
        let x = terms[k].0;
        let (t, y) = choose|t: real, y: real| #[trigger]
            chosen(t) && #[trigger] chosen(y) && denotes(terms[k].1, pi, eu, t) && is_power(
                t,
                x,
                y,
            ) && prod_denotes(terms, i + 1, a * y, pi, eu, v);
        lemma_eval_sound(terms[k].1, iter, cap, pi, eu, t);
        let j = eval(terms[k].1, iter, cap)->0;
        lemma_eval_pow_sound(j, x, iter, cap, t, y);
        let p = eval_pow(Some(j), x, iter, cap)->0;
        lemma_mul_sound(acc, p, a, y);
        lemma_eval_prod_sound(terms, i + 1, acc.mul(p), a * y, iter, cap, pi, eu, v);
    }
}

/// The real numbers `pi` and `eu` lie in the enclosures of the two
/// constants for every effort and every denominator.
pub open spec fn constants_enclosed_always(pi: real, eu: real) -> bool {
    forall|iter: nat, cap: nat|
        params_valid(iter, cap) ==> #[trigger] constants_enclosed(pi, eu, iter, cap)
}

/// A comparison that finds an order finds the order of the values: where
/// the intervals of two canonical expressions are found apart, every value
/// of the one is on the same side of every value of the other, for any real
/// numbers taken for pi and e that all enclosures of the constants contain.
pub proof fn lemma_compare_from_sound(
    a: Expr,
    b: Expr,
    iter: nat,
    cap: nat,
    max_iter: nat,
    pi: real,
    eu: real,
    va: real,
    vb: real,
)
    requires
        a.canonical(),
        b.canonical(),
        constants_enclosed_always(pi, eu),
        denotes(a, pi, eu, va),
        denotes(b, pi, eu, vb),
        compare_from(a, b, iter, cap, max_iter) is Some,
    ensures
        compare_from(a, b, iter, cap, max_iter)->0 > 0 ==> va > vb,
        compare_from(a, b, iter, cap, max_iter)->0 < 0 ==> va < vb,
    decreases max_iter + 1 - iter,
{
    let x = eval(a, iter, cap)->0;
    let y = eval(b, iter, cap)->0;
    assert(constants_enclosed(pi, eu, iter, cap));
    lemma_eval_sound(a, iter, cap, pi, eu, va);
    lemma_eval_sound(b, iter, cap, pi, eu, vb);
    lemma_value_order(y.hi, x.lo);
    lemma_value_order(x.hi, y.lo);
    if separation(x, y) == 0 && iter <= max_iter {
        lemma_compare_from_sound(a, b, iter + 1, cap * 3, max_iter, pi, eu, va, vb);
    }
}

/// A comparison that finds an order finds the order of the values.
pub proof fn lemma_compare_sound(
    a: Expr,
    b: Expr,
    max_iter: nat,
    pi: real,
    eu: real,
    va: real,
    vb: real,
)
    requires
        a.canonical(),
        b.canonical(),
        constants_enclosed_always(pi, eu),
        denotes(a, pi, eu, va),
        denotes(b, pi, eu, vb),
        compare(a, b, max_iter) is Some,
    ensures
        compare(a, b, max_iter)->0 > 0 ==> va > vb,
        compare(a, b, max_iter)->0 < 0 ==> va < vb,
{
    lemma_compare_from_sound(a, b, 3, 6091, max_iter, pi, eu, va, vb);
}

} // verus!
