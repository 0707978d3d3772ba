//! Greatest common divisors of natural numbers: the definition by Euclid's
//! recursion and the facts about it that exact rational arithmetic rests on.

use vstd::arithmetic::div_mod::{
    lemma_fundamental_div_mod, lemma_mod_multiples_basic, lemma_mod_self_0, lemma_small_mod,
    lemma_truncate_middle,
};
use vstd::arithmetic::power::{lemma_pow0, pow};
use vstd::prelude::*;

verus! {

/// The greatest common divisor, with `gcd(a, 0) == a` and so `gcd(0, 0) == 0`.
pub open spec fn gcd(a: nat, b: nat) -> nat
    decreases b,
{
    if b == 0 {
        a
    } else {
        gcd(b, a % b)
    }
}

/// The least common multiple; `0` when either argument is `0`.
pub open spec fn lcm(a: nat, b: nat) -> nat {
    if a == 0 || b == 0 {
        0
    } else {
        a * b / gcd(a, b)
    }
}

/// `d` divides `n`.
pub open spec fn divides(d: int, n: int) -> bool {
    d > 0 && n % d == 0
}

/// A multiple of `d` divides evenly: `n == d * (n / d)`.
pub proof fn lemma_divides_exact(d: int, n: int)
    requires
        divides(d, n),
    ensures
        n == d * (n / d),
        n == (n / d) * d,
{
    lemma_fundamental_div_mod(n, d);
    assert(d * (n / d) == (n / d) * d) by (nonlinear_arith);
}

/// Every product with `d` is a multiple of `d`.
pub proof fn lemma_divides_multiple(d: int, k: int)
    requires
        d > 0,
    ensures
        divides(d, k * d),
        divides(d, d * k),
{
    lemma_mod_multiples_basic(k, d);
    assert(k * d == d * k) by (nonlinear_arith);
}

/// A divisor of `x` and `y` divides every combination `x * k + y`.
pub proof fn lemma_divides_combine(d: int, x: int, y: int, k: int)
    requires
        divides(d, x),
        divides(d, y),
    ensures
        divides(d, x * k + y),
{
    lemma_divides_exact(d, x);
    lemma_divides_exact(d, y);
    let m = (x / d) * k + y / d;
    assert(x * k + y == m * d) by (nonlinear_arith)
        requires
            x == (x / d) * d,
            y == (y / d) * d,
            m == (x / d) * k + y / d,
    ;
    lemma_divides_multiple(d, m);
}

/// Divisibility is transitive.
pub proof fn lemma_divides_trans(a: int, b: int, c: int)
    requires
        divides(a, b),
        divides(b, c),
    ensures
        divides(a, c),
{
    lemma_divides_exact(b, c);
    assert(c == b * (c / b) + 0);
    lemma_divides_multiple(a, 0);
    lemma_divides_combine(a, b, 0, c / b);
}

/// A divisor of a positive number is no larger than it.
pub proof fn lemma_divides_le(d: int, n: int)
    requires
        divides(d, n),
        n > 0,
    ensures
        d <= n,
{
    if d > n {
        lemma_small_mod(n as nat, d as nat);
    }
}

/// Two positive numbers that divide each other are equal.
pub proof fn lemma_divides_antisym(a: int, b: int)
    requires
        divides(a, b),
        divides(b, a),
    ensures
        a == b,
{
    lemma_divides_le(a, b);
    lemma_divides_le(b, a);
}

/// `gcd(a, b)` is positive unless both arguments are zero, and divides both.
pub proof fn lemma_gcd_divides(a: nat, b: nat)
    ensures
        a == 0 && b == 0 ==> gcd(a, b) == 0,
        a > 0 || b > 0 ==> gcd(a, b) > 0,
        a > 0 || b > 0 ==> divides(gcd(a, b) as int, a as int),
        a > 0 || b > 0 ==> divides(gcd(a, b) as int, b as int),
    decreases b,
{
    if b == 0 {
        if a > 0 {
            lemma_mod_self_0(a as int);
            lemma_divides_multiple(a as int, 0);
        }
    } else {
        let r = a % b;
        lemma_gcd_divides(b, r);
        let g = gcd(b, r) as int;
        lemma_fundamental_div_mod(a as int, b as int);
        assert(a as int == (b as int) * (a as int / b as int) + r as int);
        lemma_divides_combine(g, b as int, r as int, a as int / b as int);
    }
}

/// Every common divisor of `a` and `b` divides `gcd(a, b)`.
pub proof fn lemma_gcd_greatest(a: nat, b: nat, d: int)
    requires
        divides(d, a as int),
        divides(d, b as int),
    ensures
        gcd(a, b) % (d as nat) == 0,
        a > 0 || b > 0 ==> divides(d, gcd(a, b) as int),
    decreases b,
{
    if b == 0 {
    } else {
        let r = a % b;
        let q = a as int / b as int;
        lemma_fundamental_div_mod(a as int, b as int);
        assert(r as int == (b as int) * (-q) + a as int) by (nonlinear_arith)
            requires
                a as int == (b as int) * q + r as int,
        ;
        lemma_divides_combine(d, b as int, a as int, -q);
        lemma_gcd_greatest(b, r, d);
    }
}

/// The greatest common divisor does not depend on the order of its arguments.
pub proof fn lemma_gcd_symmetric(a: nat, b: nat)
    ensures
        gcd(a, b) == gcd(b, a),
{
    if a == 0 && b == 0 {
    } else {
        lemma_gcd_divides(a, b);
        lemma_gcd_divides(b, a);
        lemma_gcd_greatest(a, b, gcd(b, a) as int);
        lemma_gcd_greatest(b, a, gcd(a, b) as int);
        lemma_divides_antisym(gcd(a, b) as int, gcd(b, a) as int);
    }
}

/// A common factor can be pulled out: `gcd(a * c, b * c) == gcd(a, b) * c`.
pub proof fn lemma_gcd_scale(a: nat, b: nat, c: nat)
    requires
        c > 0,
    ensures
        gcd(a * c, b * c) == gcd(a, b) * c,
    decreases b,
{
    if b == 0 {
        assert(b * c == 0) by (nonlinear_arith)
            requires
                b == 0,
        ;
    } else {
        assert(b * c > 0) by (nonlinear_arith)
            requires
                b > 0,
                c > 0,
        ;
        lemma_truncate_middle(a as int, c as int, b as int);
        assert(a * c == c * a) by (nonlinear_arith);
        assert(b * c == c * b) by (nonlinear_arith);
        assert((a % b) * c == c * (a % b)) by (nonlinear_arith);
        assert((a * c) % (b * c) == (a % b) * c);
        lemma_gcd_scale(b, a % b, c);
    }
}

/// Dividing two numbers by their greatest common divisor leaves coprime numbers.
pub proof fn lemma_gcd_quotients_coprime(a: nat, b: nat)
    requires
        a > 0 || b > 0,
    ensures
        gcd(a / gcd(a, b), b / gcd(a, b)) == 1,
{
    let g = gcd(a, b);
    lemma_gcd_divides(a, b);
    lemma_divides_exact(g as int, a as int);
    lemma_divides_exact(g as int, b as int);
    let x = a / g;
    let y = b / g;
    assert(a == x * g && b == y * g);
    lemma_gcd_scale(x, y, g);
    assert(gcd(x, y) == 1) by (nonlinear_arith)
        requires
            g > 0,
            g == gcd(x, y) * g,
    ;
}

/// The only divisor of one is one.
pub proof fn lemma_divides_one(d: int)
    requires
        divides(d, 1),
    ensures
        d == 1,
{
    lemma_divides_le(d, 1);
}

/// Euclid's lemma: a number coprime to `b` that divides `b * c` divides `c`.
pub proof fn lemma_coprime_divides_product(a: nat, b: nat, c: nat)
    requires
        gcd(a, b) == 1,
        divides(a as int, (b * c) as int),
    ensures
        divides(a as int, c as int),
{
    if c == 0 {
    } else {
        lemma_gcd_scale(a, b, c);
        assert(gcd(a * c, b * c) == c) by (nonlinear_arith)
            requires
                gcd(a * c, b * c) == 1 * c,
        ;
        lemma_divides_multiple(a as int, c as int);
        assert(a * c > 0) by (nonlinear_arith)
            requires
                a > 0,
                c > 0,
        ;
        lemma_gcd_greatest(a * c, b * c, a as int);
    }
}

/// A number coprime to two numbers is coprime to their product.
pub proof fn lemma_coprime_product(a: nat, b: nat, c: nat)
    requires
        gcd(a, b) == 1,
        gcd(a, c) == 1,
    ensures
        gcd(a, b * c) == 1,
{
    if a == 0 {
        lemma_gcd_symmetric(0, b);
        lemma_gcd_symmetric(0, c);
        assert(gcd(b, 0) == b && gcd(c, 0) == c);
        assert(b * c == 1) by (nonlinear_arith)
            requires
                b == 1,
                c == 1,
        ;
        lemma_gcd_symmetric(0, 1);
    } else {
        let g = gcd(a, b * c);
        lemma_gcd_divides(a, b * c);
        let h = gcd(g, b);
        lemma_gcd_divides(g, b);
        lemma_divides_trans(h as int, g as int, a as int);
        lemma_gcd_greatest(a, b, h as int);
        lemma_divides_one(h as int);
        lemma_coprime_divides_product(g, b, c);
        lemma_gcd_greatest(a, c, g as int);
        lemma_divides_one(g as int);
    }
}

/// Powers of coprime numbers are coprime.
pub proof fn lemma_coprime_pow(a: nat, b: nat, k: nat)
    requires
        gcd(a, b) == 1,
    ensures
        gcd(pow(a as int, k) as nat, pow(b as int, k) as nat) == 1,
        pow(a as int, k) >= 0,
        pow(b as int, k) >= 0,
{
    lemma_coprime_pow_right(a, b, k);
    lemma_gcd_symmetric(a, pow(b as int, k) as nat);
    lemma_coprime_pow_right(pow(b as int, k) as nat, a, k);
    lemma_gcd_symmetric(pow(b as int, k) as nat, pow(a as int, k) as nat);
}

/// A number coprime to `b` is coprime to every power of `b`.
pub proof fn lemma_coprime_pow_right(a: nat, b: nat, k: nat)
    requires
        gcd(a, b) == 1,
    ensures
        gcd(a, pow(b as int, k) as nat) == 1,
        pow(b as int, k) >= 0,
    decreases k,
{
    if k == 0 {
        lemma_pow0(b as int);
        assert(a % 1 == 0);
        assert(gcd(a, 1) == 1) by {
            reveal_with_fuel(gcd, 3);
        }
    } else {
        lemma_coprime_pow_right(a, b, (k - 1) as nat);
        let p = pow(b as int, (k - 1) as nat) as nat;
        reveal(pow);
        assert(pow(b as int, k) == (b as int) * pow(b as int, (k - 1) as nat));
        lemma_coprime_product(a, b, p);
        assert((b * p) as int == (b as int) * (p as int));
    }
}

} // verus!
