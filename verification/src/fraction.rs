//! The mathematical model of a rational number: a signed numerator over a
//! positive denominator, with the arithmetic that the executable `Rational`
//! is specified against.

use crate::numtheory::{
    divides, gcd, lemma_coprime_divides_product, lemma_divides_antisym, lemma_divides_exact,
    lemma_divides_multiple, lemma_gcd_divides, lemma_gcd_quotients_coprime, lemma_gcd_symmetric,
};
use vstd::arithmetic::div_mod::{lemma_fundamental_div_mod, lemma_fundamental_div_mod_converse};
use vstd::arithmetic::power::{lemma_pow_positive, pow};
use vstd::math::abs;
use vstd::prelude::*;

verus! {

/// A fraction `num / den`.
pub struct Fraction {
    pub num: int,
    pub den: int,
}

impl Fraction {
    /// The denominator is positive.
    pub open spec fn wf(self) -> bool {
        self.den > 0
    }

    /// The fraction is in lowest terms.
    pub open spec fn reduced(self) -> bool {
        self.den > 0 && gcd(abs(self.num), abs(self.den)) == 1
    }

    /// The same value in lowest terms.
    pub open spec fn reduce(self) -> Fraction {
        let g = gcd(abs(self.num), abs(self.den)) as int;
        Fraction { num: self.num / g, den: self.den / g }
    }

    /// The integer `n`.
    pub open spec fn from_int(n: int) -> Fraction {
        Fraction { num: n, den: 1 }
    }

    /// Both fractions have the same value.
    pub open spec fn eqv(self, other: Fraction) -> bool {
        self.num * other.den == other.num * self.den
    }

    /// The value of `self` is at most that of `other`.
    pub open spec fn le(self, other: Fraction) -> bool {
        self.num * other.den <= other.num * self.den
    }

    /// The value of `self` is below that of `other`.
    pub open spec fn lt(self, other: Fraction) -> bool {
        self.num * other.den < other.num * self.den
    }

    /// The sum, in lowest terms.
    pub open spec fn add(self, other: Fraction) -> Fraction {
        Fraction {
            num: self.num * other.den + other.num * self.den,
            den: self.den * other.den,
        }.reduce()
    }

    /// The negation.
    pub open spec fn neg(self) -> Fraction {
        Fraction { num: -self.num, den: self.den }
    }

    /// The difference, in lowest terms.
    pub open spec fn sub(self, other: Fraction) -> Fraction {
        self.add(other.neg())
    }

    /// The product, in lowest terms.
    pub open spec fn mul(self, other: Fraction) -> Fraction {
        Fraction { num: self.num * other.num, den: self.den * other.den }.reduce()
    }

    /// The reciprocal of a nonzero fraction.
    pub open spec fn inv(self) -> Fraction {
        if self.num >= 0 {
            Fraction { num: self.den, den: self.num }
        } else {
            Fraction { num: -self.den, den: -self.num }
        }
    }

    /// The quotient by a nonzero fraction, in lowest terms.
    pub open spec fn div(self, other: Fraction) -> Fraction {
        self.mul(other.inv())
    }

    /// The `k`-th power.
    pub open spec fn pow(self, k: nat) -> Fraction {
        Fraction { num: pow(self.num, k), den: pow(self.den, k) }
    }

    /// The largest fraction with denominator `d` that is at most `self`.
    pub open spec fn floor_to(self, d: int) -> Fraction {
        Fraction { num: (self.num * d) / self.den, den: d }
    }

    /// The smallest fraction with denominator `d` that is at least `self`.
    pub open spec fn ceil_to(self, d: int) -> Fraction {
        Fraction { num: -((-self.num * d) / self.den), den: d }
    }

    /// The real number that the fraction stands for.
    pub open spec fn value(self) -> real {
        (self.num as real) / (self.den as real)
    }

    /// The smaller of two fractions (`self` when they are equal in value).
    pub open spec fn min(self, other: Fraction) -> Fraction {
        if self.le(other) {
            self
        } else {
            other
        }
    }

    /// The larger of two fractions (`self` when they are equal in value).
    pub open spec fn max(self, other: Fraction) -> Fraction {
        if other.le(self) {
            self
        } else {
            other
        }
    }
}

/// Exact division commutes with negation.
pub proof fn lemma_div_neg_exact(n: int, g: int)
    requires
        divides(g, n),
    ensures
        (-n) / g == -(n / g),
        divides(g, -n),
{
    lemma_divides_exact(g, n);
    let q = n / g;
    assert(-n == g * (-q) + 0) by (nonlinear_arith)
        requires
            n == g * q,
    ;
    lemma_fundamental_div_mod_converse(-n, g, -q, 0);
}

/// Reducing a fraction keeps its value and yields lowest terms.
pub proof fn lemma_reduce(x: Fraction)
    requires
        x.wf(),
    ensures
        x.reduce().reduced(),
        x.reduce().eqv(x),
        x.num == x.reduce().num * gcd(abs(x.num), abs(x.den)),
        x.den == x.reduce().den * gcd(abs(x.num), abs(x.den)),
        gcd(abs(x.num), abs(x.den)) > 0,
        (x.reduce().num == 0) == (x.num == 0),
        (x.reduce().num > 0) == (x.num > 0),
{
    let n = abs(x.num);
    let d = abs(x.den);
    let g = gcd(n, d) as int;
    lemma_gcd_divides(n, d);
    lemma_gcd_quotients_coprime(n, d);
    lemma_divides_exact(g, n as int);
    lemma_divides_exact(g, d as int);
    let r = x.reduce();
    if x.num < 0 {
        lemma_div_neg_exact(n as int, g);
        assert(r.num == -(n as int / g));
        assert(abs(r.num) == n / (g as nat)) by (nonlinear_arith)
            requires
                r.num == -(n as int / g),
                g > 0,
                n >= 0,
        ;
    } else {
        assert(abs(r.num) == n / (g as nat)) by (nonlinear_arith)
            requires
                r.num == (n as int / g),
                g > 0,
                n >= 0,
        ;
    }
    assert(r.den > 0) by (nonlinear_arith)
        requires
            d as int == g * r.den,
            g > 0,
            d > 0,
    ;
    assert(abs(r.den) == d / (g as nat));
    assert(x.num == r.num * g) by (nonlinear_arith)
        requires
            n as int == g * (n as int / g),
            x.num < 0 ==> r.num == -(n as int / g) && x.num == -(n as int),
            x.num >= 0 ==> r.num == (n as int / g) && x.num == n as int,
    ;
    assert(x.den == r.den * g) by (nonlinear_arith)
        requires
            d as int == g * r.den,
            x.den == d as int,
    ;
    assert(r.num * x.den == x.num * r.den) by (nonlinear_arith)
        requires
            x.num == r.num * g,
            x.den == r.den * g,
    ;
    assert((r.num == 0) == (x.num == 0) && (r.num > 0) == (x.num > 0)) by (nonlinear_arith)
        requires
            x.num == r.num * g,
            g > 0,
    ;
}

/// Two fractions in lowest terms with the same value are the same fraction.
pub proof fn lemma_reduced_unique(x: Fraction, y: Fraction)
    requires
        x.reduced(),
        y.reduced(),
        x.eqv(y),
    ensures
        x == y,
{
    let xn = abs(x.num);
    let yn = abs(y.num);
    let xd = abs(x.den);
    let yd = abs(y.den);
    assert(xn * yd == yn * xd) by (nonlinear_arith)
        requires
            x.num * y.den == y.num * x.den,
            x.den > 0,
            y.den > 0,
            xn == abs(x.num),
            yn == abs(y.num),
            xd == x.den,
            yd == y.den,
    ;
    // x.den divides xn * yd and is coprime to xn, so it divides yd
    lemma_gcd_symmetric(xn, xd);
    lemma_divides_multiple(xd as int, yn as int);
    assert(divides(xd as int, (xn * yd) as int));
    lemma_coprime_divides_product(xd, xn, yd);
    lemma_gcd_symmetric(yn, yd);
    lemma_divides_multiple(yd as int, xn as int);
    assert(divides(yd as int, (yn * xd) as int));
    lemma_coprime_divides_product(yd, yn, xd);
    lemma_divides_antisym(xd as int, yd as int);
    assert(x.num == y.num) by (nonlinear_arith)
        requires
            x.num * y.den == y.num * x.den,
            x.den == y.den,
            x.den > 0,
    ;
}

/// Having the same value is transitive.
pub proof fn lemma_eqv_trans(x: Fraction, y: Fraction, z: Fraction)
    requires
        x.wf(),
        y.wf(),
        z.wf(),
        x.eqv(y),
        y.eqv(z),
    ensures
        x.eqv(z),
{
    assert(x.num * z.den == z.num * x.den) by (nonlinear_arith)
        requires
            x.num * y.den == y.num * x.den,
            y.num * z.den == z.num * y.den,
            y.den > 0,
            x.den > 0,
            z.den > 0,
    ;
}

/// Fractions with the same value reduce to the same fraction.
pub proof fn lemma_reduce_eqv(x: Fraction, y: Fraction)
    requires
        x.wf(),
        y.wf(),
        x.eqv(y),
    ensures
        x.reduce() == y.reduce(),
{
    lemma_reduce(x);
    lemma_reduce(y);
    lemma_eqv_trans(x.reduce(), x, y);
    assert(y.eqv(y.reduce()));
    lemma_eqv_trans(x.reduce(), y, y.reduce());
    lemma_reduced_unique(x.reduce(), y.reduce());
}

/// The `k`-th power of a real number.
pub open spec fn real_pow(x: real, k: nat) -> real
    decreases k,
{
    if k == 0 {
        1real
    } else {
        x * real_pow(x, (k - 1) as nat)
    }
}

/// Taking an integer product as a real number multiplies the factors as
/// real numbers.
pub proof fn lemma_cast_mul(a: int, b: int)
    ensures
        (a * b) as real == (a as real) * (b as real),
{
    assert((a * b) as real == (a as real) * (b as real)) by (nonlinear_arith);
}

/// The order and the equality of values, stated by cross-multiplication,
/// are those of the real numbers that the fractions stand for.
pub proof fn lemma_value_order(x: Fraction, y: Fraction)
    requires
        x.wf(),
        y.wf(),
    ensures
        x.le(y) == (x.value() <= y.value()),
        x.lt(y) == (x.value() < y.value()),
        x.eqv(y) == (x.value() == y.value()),
{
    lemma_cast_mul(x.num, y.den);
    lemma_cast_mul(y.num, x.den);
    let a = x.num as real;
    let b = x.den as real;
    let c = y.num as real;
    let d = y.den as real;
    assert((a * d <= c * b) == (a / b <= c / d) && (a * d < c * b) == (a / b < c / d) && (a * d
        == c * b) == (a / b == c / d)) by (nonlinear_arith)
        requires
            b > 0real,
            d > 0real,
    ;
}

/// Reducing a fraction does not change the real number it stands for.
pub proof fn lemma_value_reduce(x: Fraction)
    requires
        x.wf(),
    ensures
        x.reduce().value() == x.value(),
        x.reduce().reduced(),
{
    lemma_reduce(x);
    lemma_value_order(x.reduce(), x);
}

/// Two fractions in lowest terms that stand for the same real number are
/// the same fraction.
pub proof fn lemma_value_unique(x: Fraction, y: Fraction)
    requires
        x.reduced(),
        y.reduced(),
        x.value() == y.value(),
    ensures
        x == y,
{
    lemma_value_order(x, y);
    lemma_reduced_unique(x, y);
}

/// The sum of two fractions stands for the sum of their values.
pub proof fn lemma_value_add(x: Fraction, y: Fraction)
    requires
        x.wf(),
        y.wf(),
    ensures
        x.add(y).value() == x.value() + y.value(),
        x.add(y).reduced(),
{
    let raw = Fraction { num: x.num * y.den + y.num * x.den, den: x.den * y.den };
    assert(raw.den > 0) by (nonlinear_arith)
        requires
            raw.den == x.den * y.den,
            x.den > 0,
            y.den > 0,
    ;
    lemma_value_reduce(raw);
    lemma_cast_mul(x.num, y.den);
    lemma_cast_mul(y.num, x.den);
    lemma_cast_mul(x.den, y.den);
    let a = x.num as real;
    let b = x.den as real;
    let c = y.num as real;
    let d = y.den as real;
    assert((a * d + c * b) / (b * d) == a / b + c / d) by (nonlinear_arith)
        requires
            b > 0real,
            d > 0real,
    ;
    assert(raw.num as real == a * d + c * b);
}

/// The negation of a fraction stands for the negated value, and stays in
/// lowest terms.
pub proof fn lemma_value_neg(x: Fraction)
    requires
        x.wf(),
    ensures
        x.neg().value() == -x.value(),
        x.neg().wf(),
        x.reduced() ==> x.neg().reduced(),
{
    let a = x.num as real;
    let b = x.den as real;
    assert((-a) / b == -(a / b)) by (nonlinear_arith)
        requires
            b > 0real,
    ;
    assert(abs(x.neg().num) == abs(x.num));
}

/// The difference of two fractions stands for the difference of their
/// values.
pub proof fn lemma_value_sub(x: Fraction, y: Fraction)
    requires
        x.wf(),
        y.wf(),
    ensures
        x.sub(y).value() == x.value() - y.value(),
        x.sub(y).reduced(),
{
    lemma_value_neg(y);
    lemma_value_add(x, y.neg());
}

/// The product of two fractions stands for the product of their values.
pub proof fn lemma_value_mul(x: Fraction, y: Fraction)
    requires
        x.wf(),
        y.wf(),
    ensures
        x.mul(y).value() == x.value() * y.value(),
        x.mul(y).reduced(),
{
    let raw = Fraction { num: x.num * y.num, den: x.den * y.den };
    assert(raw.den > 0) by (nonlinear_arith)
        requires
            raw.den == x.den * y.den,
            x.den > 0,
            y.den > 0,
    ;
    lemma_value_reduce(raw);
    lemma_cast_mul(x.num, y.num);
    lemma_cast_mul(x.den, y.den);
    let a = x.num as real;
    let b = x.den as real;
    let c = y.num as real;
    let d = y.den as real;
    assert((a * c) / (b * d) == (a / b) * (c / d)) by (nonlinear_arith)
        requires
            b > 0real,
            d > 0real,
    ;
}

/// The reciprocal of a nonzero fraction stands for the reciprocal of its
/// value, and stays in lowest terms.
pub proof fn lemma_value_inv(x: Fraction)
    requires
        x.wf(),
        x.num != 0,
    ensures
        x.inv().wf(),
        x.inv().value() * x.value() == 1real,
        x.inv().value() == 1real / x.value(),
        x.value() != 0real,
        x.reduced() ==> x.inv().reduced(),
{
    let a = x.num as real;
    let b = x.den as real;
    assert(a != 0real);
    assert((b / a) * (a / b) == 1real && ((-b) / (-a)) * (a / b) == 1real && a / b != 0real && b
        / a == 1real / (a / b) && (-b) / (-a) == 1real / (a / b)) by (nonlinear_arith)
        requires
            b > 0real,
            a != 0real,
    ;
    if x.reduced() {
        lemma_gcd_symmetric(abs(x.num), abs(x.den));
        assert(abs(x.inv().num) == abs(x.den));
        assert(abs(x.inv().den) == abs(x.num));
    }
}

/// The quotient of two fractions stands for the quotient of their values.
pub proof fn lemma_value_div(x: Fraction, y: Fraction)
    requires
        x.wf(),
        y.wf(),
        y.num != 0,
    ensures
        x.div(y).value() == x.value() / y.value(),
        x.div(y).reduced(),
{
    lemma_value_inv(y);
    lemma_value_mul(x, y.inv());
    let a = x.value();
    let b = y.value();
    assert(a * (1real / b) == a / b) by (nonlinear_arith)
        requires
            b != 0real,
    ;
}

/// A power of a fraction stands for the power of its value.
pub proof fn lemma_value_pow(x: Fraction, k: nat)
    requires
        x.wf(),
    ensures
        x.pow(k).wf(),
        x.pow(k).value() == real_pow(x.value(), k),
    decreases k,
{
    reveal(pow);
    lemma_pow_positive(x.den, k);
    if k == 0 {
        assert(1real / 1real == 1real) by (nonlinear_arith);
    } else {
        let j = (k - 1) as nat;
        lemma_value_pow(x, j);
        lemma_pow_positive(x.den, j);
        lemma_cast_mul(x.num, pow(x.num, j));
        lemma_cast_mul(x.den, pow(x.den, j));
        let a = x.num as real;
        let b = x.den as real;
        let c = pow(x.num, j) as real;
        let d = pow(x.den, j) as real;
        assert((a * c) / (b * d) == (a / b) * (c / d)) by (nonlinear_arith)
            requires
                b > 0real,
                d > 0real,
        ;
    }
}

/// Rounding to a denominator moves the value by less than one unit of that
/// denominator, downward for `floor_to` and upward for `ceil_to`.
pub proof fn lemma_value_rounding(x: Fraction, d: int)
    requires
        x.wf(),
        d > 0,
    ensures
        x.floor_to(d).wf(),
        x.ceil_to(d).wf(),
        x.floor_to(d).value() <= x.value(),
        x.value() <= x.ceil_to(d).value(),
        x.floor_to(d).le(x),
        x.le(x.ceil_to(d)),
        x.floor_to(d).le(x.ceil_to(d)),
        x.value() - x.floor_to(d).value() < 1real / (d as real),
        x.ceil_to(d).value() - x.value() < 1real / (d as real),
{
    let n = x.num * d;
    let m = -x.num * d;
    lemma_fundamental_div_mod(n, x.den);
    lemma_fundamental_div_mod(m, x.den);
    let f = n / x.den;
    let c = -(m / x.den);
    // f * den <= n < (f + 1) * den and (c - 1) * den < n <= c * den
    assert(m == -n) by (nonlinear_arith)
        requires
            n == x.num * d,
            m == -x.num * d,
    ;
    assert(f * x.den <= n && n < (f + 1) * x.den) by (nonlinear_arith)
        requires
            n == x.den * f + n % x.den,
            0 <= n % x.den < x.den,
    ;
    assert(n <= c * x.den && (c - 1) * x.den < n) by (nonlinear_arith)
        requires
            -n == x.den * (-c) + m % x.den,
            0 <= m % x.den < x.den,
    ;
    lemma_cast_mul(x.num, d);
    lemma_cast_mul(f, x.den);
    lemma_cast_mul(f + 1, x.den);
    lemma_cast_mul(c, x.den);
    lemma_cast_mul(c - 1, x.den);
    let a = x.num as real;
    let b = x.den as real;
    let t = d as real;
    let fr = f as real;
    let cr = c as real;
    assert((f + 1) as real == fr + 1real);
    assert((c - 1) as real == cr - 1real);
    assert(fr / t <= a / b && a / b <= cr / t && a / b - fr / t < 1real / t && cr / t - a / b
        < 1real / t) by (nonlinear_arith)
        requires
            b > 0real,
            t > 0real,
            fr * b <= a * t,
            a * t < (fr + 1real) * b,
            a * t <= cr * b,
            (cr - 1real) * b < a * t,
    ;
    lemma_value_order(x.floor_to(d), x);
    lemma_value_order(x, x.ceil_to(d));
    lemma_value_order(x.floor_to(d), x.ceil_to(d));
}

/// Addition is commutative: `a + b == b + a`.
pub proof fn lemma_add_commutative(a: Fraction, b: Fraction)
    requires
        a.wf(),
        b.wf(),
    ensures
        a.add(b) == b.add(a),
{
    lemma_value_add(a, b);
    lemma_value_add(b, a);
    lemma_value_unique(a.add(b), b.add(a));
}

/// Addition is associative: `(a + b) + c == a + (b + c)`.
pub proof fn lemma_add_associative(a: Fraction, b: Fraction, c: Fraction)
    requires
        a.wf(),
        b.wf(),
        c.wf(),
    ensures
        a.add(b).add(c) == a.add(b.add(c)),
{
    lemma_value_add(a, b);
    lemma_value_add(b, c);
    lemma_value_add(a.add(b), c);
    lemma_value_add(a, b.add(c));
    lemma_value_unique(a.add(b).add(c), a.add(b.add(c)));
}

/// Multiplication is commutative: `a * b == b * a`.
pub proof fn lemma_mul_commutative(a: Fraction, b: Fraction)
    requires
        a.wf(),
        b.wf(),
    ensures
        a.mul(b) == b.mul(a),
{
    lemma_value_mul(a, b);
    lemma_value_mul(b, a);
    let x = a.value();
    let y = b.value();
    assert(x * y == y * x) by (nonlinear_arith);
    lemma_value_unique(a.mul(b), b.mul(a));
}

/// Multiplication is associative: `(a * b) * c == a * (b * c)`.
pub proof fn lemma_mul_associative(a: Fraction, b: Fraction, c: Fraction)
    requires
        a.wf(),
        b.wf(),
        c.wf(),
    ensures
        a.mul(b).mul(c) == a.mul(b.mul(c)),
{
    lemma_value_mul(a, b);
    lemma_value_mul(b, c);
    lemma_value_mul(a.mul(b), c);
    lemma_value_mul(a, b.mul(c));
    let x = a.value();
    let y = b.value();
    let z = c.value();
    assert((x * y) * z == x * (y * z)) by (nonlinear_arith);
    lemma_value_unique(a.mul(b).mul(c), a.mul(b.mul(c)));
}

/// Multiplication distributes over addition: `a * (b + c) == a * b + a * c`.
pub proof fn lemma_mul_distributes_over_add(a: Fraction, b: Fraction, c: Fraction)
    requires
        a.wf(),
        b.wf(),
        c.wf(),
    ensures
        a.mul(b.add(c)) == a.mul(b).add(a.mul(c)),
{
    lemma_value_add(b, c);
    lemma_value_mul(a, b.add(c));
    lemma_value_mul(a, b);
    lemma_value_mul(a, c);
    lemma_value_add(a.mul(b), a.mul(c));
    let x = a.value();
    let y = b.value();
    let z = c.value();
    assert(x * (y + z) == x * y + x * z) by (nonlinear_arith);
    lemma_value_unique(a.mul(b.add(c)), a.mul(b).add(a.mul(c)));
}

/// Taking the reciprocal twice gives the number back: `(1 / a) / 1 == a`
/// for every nonzero `a`.
pub proof fn lemma_inv_involutive(a: Fraction)
    requires
        a.wf(),
        a.num != 0,
    ensures
        a.inv().inv() == a,
{
}

/// The magnitude of a power is the power of the magnitude.
pub proof fn lemma_pow_abs(n: int, k: nat)
    ensures
        abs(pow(n, k)) == pow(abs(n) as int, k),
        pow(abs(n) as int, k) >= 0,
    decreases k,
{
    reveal(pow);
    if k > 0 {
        let j = (k - 1) as nat;
        lemma_pow_abs(n, j);
        let p = pow(n, j);
        let q = pow(abs(n) as int, j);
        assert(abs(n * p) == abs(n) * abs(p)) by (nonlinear_arith);
        assert((abs(n) as int) * q >= 0) by (nonlinear_arith)
            requires
                q >= 0,
        ;
    }
}

/// A power of a fraction in lowest terms is in lowest terms.
pub proof fn lemma_pow_reduced(x: Fraction, k: nat)
    requires
        x.reduced(),
    ensures
        x.pow(k).reduced(),
{
    lemma_pow_abs(x.num, k);
    lemma_pow_abs(x.den, k);
    lemma_pow_positive(x.den, k);
    crate::numtheory::lemma_coprime_pow(abs(x.num), abs(x.den), k);
}

/// The fraction `n / 1` stands for the whole number `n`.
pub proof fn lemma_from_int_value(n: int)
    ensures
        Fraction::from_int(n).value() == n as real,
        Fraction::from_int(n).wf(),
{
    let x = n as real;
    assert(x / 1real == x) by (nonlinear_arith);
}

/// The fraction `n / 1` is in lowest terms.
pub proof fn lemma_from_int_reduced(n: int)
    ensures
        Fraction::from_int(n).reduced(),
{
    assert(abs(n) % 1 == 0);
    assert(gcd(abs(n), 1) == 1) by {
        reveal_with_fuel(gcd, 3);
    }
}

/// Powers of nonnegative real numbers are nonnegative, and positive for
/// positive numbers.
pub proof fn lemma_real_pow_sign(x: real, k: nat)
    requires
        x >= 0real,
    ensures
        real_pow(x, k) >= 0real,
        x > 0real ==> real_pow(x, k) > 0real,
    decreases k,
{
    if k > 0 {
        lemma_real_pow_sign(x, (k - 1) as nat);
        let p = real_pow(x, (k - 1) as nat);
        assert(x * p >= 0real && (x > 0real && p > 0real ==> x * p > 0real)) by (nonlinear_arith)
            requires
                x >= 0real,
                p >= 0real,
        ;
    }
}

/// Powers grow with a nonnegative base.
pub proof fn lemma_real_pow_monotone(x: real, y: real, k: nat)
    requires
        0real <= x <= y,
    ensures
        real_pow(x, k) <= real_pow(y, k),
        x < y && k >= 1 ==> real_pow(x, k) < real_pow(y, k),
    decreases k,
{
    if k > 0 {
        let j = (k - 1) as nat;
        lemma_real_pow_monotone(x, y, j);
        lemma_real_pow_sign(x, j);
        lemma_real_pow_sign(y, j);
        let p = real_pow(x, j);
        let q = real_pow(y, j);
        assert(x * p <= y * q && (x < y ==> x * p < y * q)) by (nonlinear_arith)
            requires
                0real <= x <= y,
                0real <= p <= q,
                x < y ==> q > 0real,
        ;
    }
}

/// A power of a negated number is the power of the number, negated when the
/// exponent is odd.
pub proof fn lemma_real_pow_neg(x: real, k: nat)
    ensures
        real_pow(-x, k) == (if k % 2 == 0 {
            real_pow(x, k)
        } else {
            -real_pow(x, k)
        }),
    decreases k,
{
    if k > 0 {
        lemma_real_pow_neg(x, (k - 1) as nat);
        let p = real_pow(x, (k - 1) as nat);
        assert((-x) * p == -(x * p) && (-x) * (-p) == x * p) by (nonlinear_arith);
    }
}

/// Odd powers grow with the base over all real numbers.
pub proof fn lemma_real_pow_odd_monotone(x: real, y: real, k: nat)
    requires
        x <= y,
        k % 2 == 1,
    ensures
        real_pow(x, k) <= real_pow(y, k),
        x < 0real ==> real_pow(x, k) < 0real,
{
    if x >= 0real {
        lemma_real_pow_monotone(x, y, k);
    } else {
        lemma_real_pow_neg(-x, k);
        lemma_real_pow_sign(-x, k);
        assert(-(-x) == x);
        if y >= 0real {
            lemma_real_pow_sign(y, k);
        } else {
            lemma_real_pow_neg(-y, k);
            assert(-(-y) == y);
            lemma_real_pow_monotone(-y, -x, k);
        }
    }
}

/// Even powers are nonnegative and shrink toward zero from both sides.
pub proof fn lemma_real_pow_even(x: real, y: real, k: nat)
    requires
        x <= y <= 0real,
        k % 2 == 0,
    ensures
        real_pow(y, k) <= real_pow(x, k),
        real_pow(x, k) >= 0real,
        real_pow(y, k) >= 0real,
        k >= 1 && y < 0real ==> real_pow(y, k) > 0real,
{
    lemma_real_pow_neg(-x, k);
    lemma_real_pow_neg(-y, k);
    assert(-(-x) == x && -(-y) == y);
    lemma_real_pow_monotone(-y, -x, k);
    lemma_real_pow_sign(-x, k);
    lemma_real_pow_sign(-y, k);
}

} // verus!
